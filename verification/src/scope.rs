//! The lattice of module scopes that a declaration's compiled uses require.

use vstd::prelude::*;

verus! {

/// The narrowest visibility that a declaration's compiled uses require, as plain values.
pub enum ScopeView {
    /// No compiled use requires any visibility.
    Bottom,
    /// Every compiled use lies within this module of this crate.
    Known { crate_name: Seq<char>, module_scope: Seq<Seq<char>> },
    /// Some use lies outside every scope that a restricted modifier could name.
    Unknown,
}

/// The number of leading modules that two module paths share.
pub open spec fn shared_len(left: Seq<Seq<char>>, right: Seq<Seq<char>>) -> nat
    decreases left.len(),
{
    if left.len() == 0 || right.len() == 0 || left[0] != right[0] {
        0
    } else {
        1 + shared_len(left.drop_first(), right.drop_first())
    }
}

/// `prefix` names `path` or one of its ancestors.
pub open spec fn is_prefix(prefix: Seq<Seq<char>>, path: Seq<Seq<char>>) -> bool {
    prefix.len() <= path.len() && path.take(prefix.len() as int) == prefix
}

/// The partial order of the lattice: `left` is at most as demanding as `right`.
pub open spec fn scope_le(left: ScopeView, right: ScopeView) -> bool {
    match left {
        ScopeView::Bottom => true,
        ScopeView::Unknown => right is Unknown,
        ScopeView::Known { crate_name, module_scope } => match right {
            ScopeView::Bottom => false,
            ScopeView::Unknown => true,
            ScopeView::Known { crate_name: other_crate, module_scope: other_scope } => {
                crate_name == other_crate && is_prefix(other_scope, module_scope)
            },
        },
    }
}

/// The least upper bound of two requirements.
pub open spec fn scope_join(left: ScopeView, right: ScopeView) -> ScopeView {
    match right {
        ScopeView::Bottom => left,
        ScopeView::Unknown => ScopeView::Unknown,
        ScopeView::Known { crate_name: other_crate, module_scope: other_scope } => match left {
            ScopeView::Bottom => right,
            ScopeView::Unknown => ScopeView::Unknown,
            ScopeView::Known { crate_name, module_scope } => {
                if crate_name == other_crate {
                    ScopeView::Known {
                        crate_name,
                        module_scope: module_scope.take(shared_len(module_scope, other_scope) as int),
                    }
                } else {
                    ScopeView::Unknown
                }
            },
        },
    }
}

/// The shared prefix is a prefix of both paths, and every common prefix is no longer.
pub proof fn lemma_shared_len(left: Seq<Seq<char>>, right: Seq<Seq<char>>)
    ensures
        shared_len(left, right) <= left.len(),
        shared_len(left, right) <= right.len(),
        forall|i: int| 0 <= i < shared_len(left, right) ==> left[i] == right[i],
        shared_len(left, right) < left.len() && shared_len(left, right) < right.len() ==> left[shared_len(left, right) as int] != right[shared_len(left, right) as int],
    decreases left.len(),
{
    if left.len() == 0 || right.len() == 0 || left[0] != right[0] {
    } else {
        lemma_shared_len(left.drop_first(), right.drop_first());
        let k = shared_len(left, right);
        assert forall|i: int| 0 <= i < k implies left[i] == right[i] by {
            if i > 0 {
                assert(left.drop_first()[i - 1] == right.drop_first()[i - 1]);
            }
        }
    }
}

/// A length at which two paths first differ, or one ends, is their shared length.
pub proof fn lemma_shared_len_at(left: Seq<Seq<char>>, right: Seq<Seq<char>>, k: int)
    requires
        0 <= k <= left.len(),
        k <= right.len(),
        forall|i: int| 0 <= i < k ==> left[i] == right[i],
        k == left.len() || k == right.len() || left[k] != right[k],
    ensures
        shared_len(left, right) == k,
{
    lemma_shared_len(left, right);
    let s = shared_len(left, right) as int;
    if s < k {
        assert(left[s] == right[s]);
    } else if s > k {
        assert(left[k] == right[k]);
    }
}

/// Scopes form a lattice: the join is an upper bound, and the least one.
pub proof fn lemma_join_is_least_upper_bound(left: ScopeView, right: ScopeView, bound: ScopeView)
    ensures
        scope_le(left, scope_join(left, right)),
        scope_le(right, scope_join(left, right)),
        scope_le(left, bound) && scope_le(right, bound) ==> scope_le(scope_join(left, right), bound),
{
    lemma_scope_order(left, left, left);
    lemma_scope_order(right, right, right);
    if let ScopeView::Known { crate_name: c1, module_scope: s1 } = left {
        if let ScopeView::Known { crate_name: c2, module_scope: s2 } = right {
            if c1 == c2 {
                lemma_shared_len(s1, s2);
                let k = shared_len(s1, s2) as int;
                assert(s1.take(k) == s2.take(k));
                assert(s1.take(k).len() == k);
                assert(s1.take(k) =~= s1.take(k));
                assert(is_prefix(s1.take(k), s1));
                assert(is_prefix(s1.take(k), s2));
                if let ScopeView::Known { crate_name: c3, module_scope: s3 } = bound {
                    if scope_le(left, bound) && scope_le(right, bound) {
                        assert forall|i: int| 0 <= i < s3.len() implies s1[i] == s2[i] by {
                            assert(s1.take(s3.len() as int)[i] == s3[i]);
                            assert(s2.take(s3.len() as int)[i] == s3[i]);
                        }
                        if k < s3.len() {
                            assert(s1[k] == s2[k]);
                        }
                        assert(s1.take(k).take(s3.len() as int) =~= s3) by {
                            assert forall|i: int| 0 <= i < s3.len() implies s1.take(k).take(s3.len() as int)[i] == s3[i] by {
                                assert(s1.take(s3.len() as int)[i] == s3[i]);
                            }
                        }
                    }
                }
            }
        }
    }
}

/// The order is reflexive, transitive, and antisymmetric.
pub proof fn lemma_scope_order(a: ScopeView, b: ScopeView, c: ScopeView)
    ensures
        scope_le(a, a),
        scope_le(a, b) && scope_le(b, c) ==> scope_le(a, c),
        scope_le(a, b) && scope_le(b, a) ==> a == b,
{
    if let ScopeView::Known { crate_name: ca, module_scope: sa } = a {
        assert(sa.take(sa.len() as int) =~= sa);
        if let ScopeView::Known { crate_name: cb, module_scope: sb } = b {
            if let ScopeView::Known { crate_name: cc, module_scope: sc } = c {
                if scope_le(a, b) && scope_le(b, c) {
                    assert(sa.take(sc.len() as int) =~= sc) by {
                        assert forall|i: int| 0 <= i < sc.len() implies sa.take(sc.len() as int)[i] == sc[i] by {
                            assert(sb.take(sc.len() as int)[i] == sc[i]);
                            assert(sa.take(sb.len() as int)[i] == sb[i]);
                        }
                    }
                }
            }
            if scope_le(a, b) && scope_le(b, a) {
                assert(sa =~= sb) by {
                    assert(sa.len() == sb.len());
                    assert(sa.take(sb.len() as int) == sb);
                    assert(sa.take(sa.len() as int) == sa);
                }
            }
        }
    }
}

/// A requirement on a declaration's visibility, computed from its compiled uses.
#[derive(Clone, Debug, PartialEq, Eq)]
pub enum RequiredScope {
    Bottom,
    Known { crate_name: String, module_scope: Vec<String> },
    Unknown,
}

/// The module names of a module path.
pub open spec fn names_of(path: Seq<String>) -> Seq<Seq<char>> {
    path.map_values(|name: String| name@)
}

impl RequiredScope {
    pub open spec fn view(&self) -> ScopeView {
        match self {
            RequiredScope::Bottom => ScopeView::Bottom,
            RequiredScope::Known { crate_name, module_scope } => ScopeView::Known {
                crate_name: crate_name@,
                module_scope: names_of(module_scope@),
            },
            RequiredScope::Unknown => ScopeView::Unknown,
        }
    }

    /// The requirement that a use from a declaration in `crate_name`, inside `module_scope`, imposes.
    pub fn known(crate_name: &String, module_scope: &Vec<String>) -> (scope: Self)
        ensures
            scope.view() == (ScopeView::Known {
                crate_name: crate_name@,
                module_scope: names_of(module_scope@),
            }),
    {
        let mut copied: Vec<String> = Vec::new();
        let mut index: usize = 0;
        while index < module_scope.len()
            invariant
                index <= module_scope@.len(),
                names_of(copied@) == names_of(module_scope@.take(index as int)),
            decreases module_scope@.len() - index,
        {
            let name = module_scope[index].clone();
            let ghost before = copied@;
            copied.push(name);
            proof {
                assert(module_scope@.take(index + 1) =~= module_scope@.take(index as int).push(module_scope@[index as int]));
                assert(copied@ =~= before.push(name));
                assert(names_of(copied@) =~= names_of(before).push(name@));
                assert(names_of(module_scope@.take(index + 1)) =~= names_of(module_scope@.take(index as int)).push(module_scope@[index as int]@));
            }
            index = index + 1;
        }
        proof {
            assert(module_scope@.take(module_scope@.len() as int) =~= module_scope@);
        }
        RequiredScope::Known { crate_name: crate_name.clone(), module_scope: copied }
    }

    pub fn unknown() -> (scope: Self)
        ensures
            scope.view() == ScopeView::Unknown,
    {
        RequiredScope::Unknown
    }

    pub fn copy_scope(&self) -> (scope: Self)
        ensures
            scope.view() == self.view(),
    {
        match self {
            RequiredScope::Bottom => RequiredScope::Bottom,
            RequiredScope::Known { crate_name, module_scope } => RequiredScope::known(crate_name, module_scope),
            RequiredScope::Unknown => RequiredScope::Unknown,
        }
    }

    /// Joins `other` into this requirement, and reports whether the requirement grew.
    pub fn merge(&mut self, other: &Self) -> (changed: bool)
        ensures
            final(self).view() == scope_join(old(self).view(), other.view()),
            changed == (final(self).view() != old(self).view()),
    {
        match other {
            RequiredScope::Bottom => false,
            RequiredScope::Unknown => {
                if let RequiredScope::Unknown = self {
                    false
                } else {
                    *self = RequiredScope::Unknown;
                    true
                }
            },
            RequiredScope::Known { crate_name: other_crate, module_scope: other_scope } => {
                match self {
                    RequiredScope::Bottom => {
                        *self = other.copy_scope();
                        true
                    },
                    RequiredScope::Unknown => false,
                    RequiredScope::Known { crate_name, module_scope } => {
                        if *crate_name == *other_crate {
                            let ghost old_names = names_of(module_scope@);
                            let ghost other_names = names_of(other_scope@);
                            let mut shared: usize = 0;
                            while shared < module_scope.len() && shared < other_scope.len()
                                && module_scope[shared] == other_scope[shared]
                                invariant
                                    shared <= module_scope@.len(),
                                    shared <= other_scope@.len(),
                                    old_names == names_of(module_scope@),
                                    other_names == names_of(other_scope@),
                                    forall|i: int| 0 <= i < shared ==> old_names[i] == other_names[i],
                                decreases module_scope@.len() - shared,
                            {
                                shared = shared + 1;
                            }
                            proof {
                                lemma_shared_len_at(old_names, other_names, shared as int);
                            }
                            if shared == module_scope.len() {
                                proof {
                                    assert(old_names.take(shared as int) =~= old_names);
                                }
                                false
                            } else {
                                module_scope.truncate(shared);
                                proof {
                                    assert(names_of(module_scope@) =~= old_names.take(shared as int));
                                    assert(names_of(module_scope@).len() != old_names.len());
                                }
                                true
                            }
                        } else {
                            *self = RequiredScope::Unknown;
                            true
                        }
                    },
                }
            },
        }
    }
}

} // verus!
