//! The library crates of a workspace, the packages that fixes touch, and the checks on the
//! packages, products and crates that a run names.

use vstd::prelude::*;
use crate::workspace::{is_member, PackageInfo, PackageTarget, TargetKind, WorkspaceMetadata};
use crate::invocation::{crate_name, crate_name_of};
use crate::settings::texts;
use crate::order::text_order;

verus! {

/// Whether a target kind builds a library that other crates link.
pub open spec fn library_kind(kind: TargetKind) -> bool {
    kind == TargetKind::Lib || kind == TargetKind::RLib || kind == TargetKind::DyLib || kind == TargetKind::CDyLib
        || kind == TargetKind::StaticLib
}

/// Whether a target is a library target.
pub open spec fn library_target(target: PackageTarget) -> bool {
    exists|k: int| 0 <= k < target.kinds@.len() && library_kind(#[trigger] target.kinds@[k])
}

/// Whether a target is a library target.
pub fn is_library_target(target: &PackageTarget) -> (library: bool)
    ensures
        library == library_target(*target),
{
    let mut k: usize = 0;
    while k < target.kinds.len()
        invariant
            k <= target.kinds@.len(),
            forall|j: int| 0 <= j < k ==> !library_kind(#[trigger] target.kinds@[j]),
        decreases target.kinds@.len() - k,
    {
        let kind = target.kinds[k];
        if kind == TargetKind::Lib || kind == TargetKind::RLib || kind == TargetKind::DyLib || kind == TargetKind::CDyLib
            || kind == TargetKind::StaticLib {
            return true;
        }
        k = k + 1;
    }
    false
}

/// The (crate name, package name) pairs of the library targets among the first `t` targets of
/// a package, in target order.
pub open spec fn target_pairs(package: PackageInfo, t: int) -> Seq<(Seq<char>, Seq<char>)>
    decreases t,
{
    if t <= 0 {
        Seq::empty()
    } else if library_target(package.targets@[t - 1]) {
        target_pairs(package, t - 1).push((crate_name_of(package.targets@[t - 1].name@), package.name@))
    } else {
        target_pairs(package, t - 1)
    }
}

/// The (crate name, package name) pairs of the library targets of the first `n` packages, in
/// package and target order; of workspace members only when `members_only` holds.
pub open spec fn library_pairs(metadata: WorkspaceMetadata, members_only: bool, n: int) -> Seq<(Seq<char>, Seq<char>)>
    decreases n,
{
    if n <= 0 {
        Seq::empty()
    } else if !members_only || is_member(metadata, metadata.packages@[n - 1].id@) {
        library_pairs(metadata, members_only, n - 1) + target_pairs(
            metadata.packages@[n - 1],
            metadata.packages@[n - 1].targets@.len() as int,
        )
    } else {
        library_pairs(metadata, members_only, n - 1)
    }
}

/// The (crate name, package name) pairs of all library targets of the metadata.
pub open spec fn all_library_pairs(metadata: WorkspaceMetadata, members_only: bool) -> Seq<(Seq<char>, Seq<char>)> {
    library_pairs(metadata, members_only, metadata.packages@.len() as int)
}

/// The views of a list of text pairs.
pub open spec fn pair_views(pairs: Seq<(String, String)>) -> Seq<(Seq<char>, Seq<char>)> {
    pairs.map_values(|pair: (String, String)| (pair.0@, pair.1@))
}

/// The (crate name, package name) pairs of the library targets of the metadata's packages, or
/// of its workspace members only.
pub fn library_pairs_of(metadata: &WorkspaceMetadata, members_only: bool) -> (pairs: Vec<(String, String)>)
    ensures
        pair_views(pairs@) == all_library_pairs(*metadata, members_only),
{
    let mut pairs: Vec<(String, String)> = Vec::new();
    let mut n: usize = 0;
    while n < metadata.packages.len()
        invariant
            n <= metadata.packages@.len(),
            pair_views(pairs@) == library_pairs(*metadata, members_only, n as int),
        decreases metadata.packages@.len() - n,
    {
        let package = &metadata.packages[n];
        if !members_only || crate::workspace::member_id(metadata, package.id.as_str()) {
            let ghost start = pair_views(pairs@);
            let mut t: usize = 0;
            while t < package.targets.len()
                invariant
                    t <= package.targets@.len(),
                    pair_views(pairs@) == start + target_pairs(*package, t as int),
                decreases package.targets@.len() - t,
            {
                let target = &package.targets[t];
                if is_library_target(target) {
                    let ghost previous = pairs@;
                    pairs.push((crate_name(target.name.as_str()), package.name.clone()));
                    proof {
                        assert(pair_views(pairs@) =~= pair_views(previous).push((crate_name_of(target.name@), package.name@)));
                    }
                }
                t = t + 1;
            }
        }
        n = n + 1;
    }
    pairs
}

/// A library crate name that more than one workspace package gives its library target, with
/// those packages.
#[derive(Clone, Debug)]
pub struct CrateConflict {
    pub crate_name: String,
    pub packages: Vec<String>,
}

/// Why the workspace cannot be analyzed as a run asks.
#[derive(Clone, Debug)]
pub enum WorkspaceError {
    /// Cargo reported no resolved dependency graph.
    UnresolvedDependencies,
    /// Library crate names that several workspace packages share.
    DuplicateLibraryCrates(Vec<CrateConflict>),
    /// Excluded crates that are no candidate library crate, and the candidates.
    UnknownExcludedCrates { unknown: Vec<String>, valid: Vec<String> },
    /// Crates of a fix plan that no library target provides.
    UnidentifiedFixCrates(Vec<String>),
    /// A package that is not a member of the workspace.
    UnknownPackage(String),
    /// A product that its package does not have.
    MissingProduct { package: String, kind: crate::model::ProductionTargetKind, name: String },
    /// A dependency's platform selector that does not parse.
    InvalidDependencyTarget(String),
}

/// Whether some pair names crate `name`.
pub open spec fn has_crate(pairs: Seq<(Seq<char>, Seq<char>)>, name: Seq<char>) -> bool {
    exists|k: int| 0 <= k < pairs.len() && (#[trigger] pairs[k]).0 == name
}

/// Whether package `package` provides crate `name` in some pair.
pub open spec fn provides(pairs: Seq<(Seq<char>, Seq<char>)>, name: Seq<char>, package: Seq<char>) -> bool {
    exists|k: int| 0 <= k < pairs.len() && #[trigger] pairs[k] == (name, package)
}

/// The audited crates as plain values.
pub open spec fn audited_view(audited: Option<&Vec<String>>) -> Option<Seq<Seq<char>>> {
    match audited {
        Some(crates) => Some(texts(crates@)),
        None => None,
    }
}

/// Whether two packages provide crate `name`, and it is audited (every crate is, when no
/// list of audited crates is given).
pub open spec fn conflicting(pairs: Seq<(Seq<char>, Seq<char>)>, audited: Option<Seq<Seq<char>>>, name: Seq<char>) -> bool {
    &&& exists|a: Seq<char>, b: Seq<char>| a != b && #[trigger] provides(pairs, name, a) && #[trigger] provides(pairs, name, b)
    &&& match audited {
        Some(crates) => crates.contains(name),
        None => true,
    }
}

/// The crate names of a list of conflicts.
pub open spec fn conflict_names(conflicts: Seq<CrateConflict>) -> Seq<Seq<char>> {
    conflicts.map_values(|conflict: CrateConflict| conflict.crate_name@)
}

/// Whether `conflicts` lists, in increasing order, each conflicting crate with its packages in
/// increasing order.
pub open spec fn lists_conflicts(
    conflicts: Seq<CrateConflict>,
    pairs: Seq<(Seq<char>, Seq<char>)>,
    audited: Option<Seq<Seq<char>>>,
) -> bool {
    &&& crate::sorted::increasing(conflict_names(conflicts))
    &&& forall|name: Seq<char>| conflict_names(conflicts).contains(name) <==> conflicting(pairs, audited, name)
    &&& forall|j: int| 0 <= j < conflicts.len() ==> {
        &&& crate::sorted::increasing(texts((#[trigger] conflicts[j]).packages@))
        &&& forall|package: Seq<char>| texts(conflicts[j].packages@).contains(package) <==> provides(pairs, conflicts[j].crate_name@, package)
    }
}

/// The packages that provide crate `name`, each once, in increasing order.
pub(crate) fn packages_providing(pairs: &Vec<(String, String)>, name: &str) -> (packages: Vec<String>)
    ensures
        crate::sorted::increasing(texts(packages@)),
        forall|package: Seq<char>| texts(packages@).contains(package) <==> provides(pair_views(pairs@), name@, package),
{
    let ghost views = pair_views(pairs@);
    let mut packages: Vec<String> = Vec::new();
    let mut k: usize = 0;
    while k < pairs.len()
        invariant
            views == pair_views(pairs@),
            k <= pairs@.len(),
            crate::sorted::increasing(texts(packages@)),
            forall|package: Seq<char>| texts(packages@).contains(package) <==> provides(views.take(k as int), name@, package),
        decreases pairs@.len() - k,
    {
        let ghost before = texts(packages@);
        if crate::text::str_equals(pairs[k].0.as_str(), name) {
            crate::sorted::insert_text(&mut packages, pairs[k].1.as_str());
        }
        proof {
            assert(views[k as int] == (pairs@[k as int].0@, pairs@[k as int].1@));
            assert forall|package: Seq<char>| texts(packages@).contains(package) <==> provides(views.take(k + 1), name@, package) by {
                if provides(views.take(k + 1), name@, package) {
                    let j = choose|j: int| 0 <= j < k + 1 && #[trigger] views.take(k + 1)[j] == (name@, package);
                    if j < k {
                        assert(views.take(k as int)[j] == (name@, package));
                    }
                }
                if provides(views.take(k as int), name@, package) {
                    let j = choose|j: int| 0 <= j < k && #[trigger] views.take(k as int)[j] == (name@, package);
                    assert(views.take(k + 1)[j] == (name@, package));
                }
                if texts(packages@).contains(package) && !before.contains(package) {
                    assert(views.take(k + 1)[k as int] == (name@, package));
                }
            }
        }
        k = k + 1;
    }
    proof {
        assert(views.take(pairs@.len() as int) =~= views);
    }
    packages
}

/// The distinct crate names of a list of pairs, in increasing order.
pub(crate) fn crates_of(pairs: &Vec<(String, String)>) -> (crates: Vec<String>)
    ensures
        crate::sorted::increasing(texts(crates@)),
        forall|name: Seq<char>| texts(crates@).contains(name) <==> has_crate(pair_views(pairs@), name),
{
    let ghost views = pair_views(pairs@);
    let mut crates: Vec<String> = Vec::new();
    let mut k: usize = 0;
    while k < pairs.len()
        invariant
            views == pair_views(pairs@),
            k <= pairs@.len(),
            crate::sorted::increasing(texts(crates@)),
            forall|name: Seq<char>| texts(crates@).contains(name) <==> has_crate(views.take(k as int), name),
        decreases pairs@.len() - k,
    {
        let ghost before = texts(crates@);
        crate::sorted::insert_text(&mut crates, pairs[k].0.as_str());
        proof {
            assert(views[k as int].0 == pairs@[k as int].0@);
            assert forall|name: Seq<char>| texts(crates@).contains(name) <==> has_crate(views.take(k + 1), name) by {
                if has_crate(views.take(k + 1), name) {
                    let j = choose|j: int| 0 <= j < k + 1 && (#[trigger] views.take(k + 1)[j]).0 == name;
                    if j < k {
                        assert(views.take(k as int)[j].0 == name);
                    }
                }
                if has_crate(views.take(k as int), name) {
                    let j = choose|j: int| 0 <= j < k && (#[trigger] views.take(k as int)[j]).0 == name;
                    assert(views.take(k + 1)[j].0 == name);
                }
                if texts(crates@).contains(name) && !before.contains(name) {
                    assert(views.take(k + 1)[k as int].0 == name);
                }
            }
        }
        k = k + 1;
    }
    proof {
        assert(views.take(pairs@.len() as int) =~= views);
    }
    crates
}

proof fn lemma_two_providers(packages: Seq<Seq<char>>, pairs: Seq<(Seq<char>, Seq<char>)>, name: Seq<char>)
    requires
        crate::sorted::increasing(packages),
        forall|package: Seq<char>| packages.contains(package) <==> provides(pairs, name, package),
    ensures
        (packages.len() > 1) == exists|a: Seq<char>, b: Seq<char>| a != b && #[trigger] provides(pairs, name, a) && #[trigger] provides(pairs, name, b),
{
    crate::sorted::lemma_increasing_distinct(packages);
    if packages.len() > 1 {
        assert(packages.contains(packages[0]));
        assert(packages.contains(packages[1]));
        assert(provides(pairs, name, packages[0]) && provides(pairs, name, packages[1]));
    } else {
        assert forall|a: Seq<char>, b: Seq<char>| #[trigger] provides(pairs, name, a) && #[trigger] provides(pairs, name, b) implies a == b by {
            assert(packages.contains(a));
            assert(packages.contains(b));
        }
    }
}

/// The library crates of the workspace members, each once, in increasing order; refused when
/// two packages give an audited library crate the same name.
pub fn workspace_library_crates(metadata: &WorkspaceMetadata, audited: Option<&Vec<String>>) -> (result: Result<Vec<String>, WorkspaceError>)
    ensures
        match result {
            Ok(crates) => {
                &&& crate::sorted::increasing(texts(crates@))
                &&& forall|name: Seq<char>| texts(crates@).contains(name) <==> has_crate(all_library_pairs(*metadata, true), name)
                &&& !exists|name: Seq<char>| #[trigger] conflicting(all_library_pairs(*metadata, true), audited_view(audited), name)
            },
            Err(WorkspaceError::DuplicateLibraryCrates(conflicts)) => {
                &&& exists|name: Seq<char>| #[trigger] conflicting(all_library_pairs(*metadata, true), audited_view(audited), name)
                &&& lists_conflicts(conflicts@, all_library_pairs(*metadata, true), audited_view(audited))
            },
            Err(_) => false,
        },
{
    let pairs = library_pairs_of(metadata, true);
    let ghost views = pair_views(pairs@);
    let crates = crates_of(&pairs);
    let ghost names = texts(crates@);
    proof {
        crate::sorted::lemma_increasing_distinct(names);
    }
    let mut conflicts: Vec<CrateConflict> = Vec::new();
    let ghost mut at: Seq<int> = Seq::empty();
    let mut k: usize = 0;
    while k < crates.len()
        invariant
            views == pair_views(pairs@),
            views == all_library_pairs(*metadata, true),
            names == texts(crates@),
            crate::sorted::increasing(names),
            forall|i: int, j: int| 0 <= i < j < names.len() ==> text_order(#[trigger] names[i], #[trigger] names[j]) < 0,
            forall|i: int, j: int| 0 <= i < names.len() && 0 <= j < names.len() && i != j ==> #[trigger] names[i] != #[trigger] names[j],
            forall|name: Seq<char>| names.contains(name) <==> has_crate(views, name),
            k <= crates@.len(),
            at.len() == conflicts@.len(),
            forall|j: int| 0 <= j < at.len() ==> 0 <= #[trigger] at[j] < k && conflict_names(conflicts@)[j] == names[at[j]],
            forall|i: int, j: int| 0 <= i < j < at.len() ==> #[trigger] at[i] < #[trigger] at[j],
            crate::sorted::increasing(conflict_names(conflicts@)),
            forall|name: Seq<char>| conflict_names(conflicts@).contains(name) <==> (names.take(k as int).contains(name) && conflicting(views, audited_view(audited), name)),
            forall|j: int| 0 <= j < conflicts@.len() ==> {
                &&& crate::sorted::increasing(texts((#[trigger] conflicts@[j]).packages@))
                &&& forall|package: Seq<char>| texts(conflicts@[j].packages@).contains(package) <==> provides(views, conflicts@[j].crate_name@, package)
            },
        decreases crates@.len() - k,
    {
        let name = &crates[k];
        let packages = packages_providing(&pairs, name.as_str());
        let selected = match audited {
            Some(audited) => crate::settings::contains_text(audited, name.as_str()),
            None => true,
        };
        proof {
            assert(names[k as int] == name@);
            lemma_two_providers(texts(packages@), views, name@);
            assert(conflicting(views, audited_view(audited), name@) == (packages.len() > 1 && selected));
            assert(!names.take(k as int).contains(name@)) by {
                if names.take(k as int).contains(name@) {
                    let j = choose|j: int| 0 <= j < k && #[trigger] names.take(k as int)[j] == name@;
                    assert(names[j] == names[k as int]);
                }
            }
        }
        let ghost before = conflicts@;
        let ghost pushed = packages.len() > 1 && selected;
        if packages.len() > 1 && selected {
            let conflict = CrateConflict { crate_name: name.clone(), packages };
            conflicts.push(conflict);
            proof {
                assert(conflict_names(conflicts@) =~= conflict_names(before).push(name@));
                if at.len() > 0 {
                    assert(text_order(names[at.last()], names[k as int]) < 0);
                }
                at = at.push(k as int);
            }
        } else {
            proof {
                assert(!conflicting(views, audited_view(audited), name@));
            }
        }
        proof {
            if pushed {
                assert(conflict_names(conflicts@) == conflict_names(before).push(name@));
            } else {
                assert(conflicts@ == before);
            }
            assert forall|word: Seq<char>| conflict_names(conflicts@).contains(word) <==> (names.take(k + 1).contains(word) && conflicting(views, audited_view(audited), word)) by {
                if pushed {
                    crate::sorted::lemma_push_contains(conflict_names(before), name@, word);
                }
                if names.take(k + 1).contains(word) && !names.take(k as int).contains(word) {
                    let j = choose|j: int| 0 <= j < k + 1 && #[trigger] names.take(k + 1)[j] == word;
                    if j < k {
                        assert(names.take(k as int)[j] == word);
                    }
                    assert(word == name@);
                }
                if names.take(k as int).contains(word) {
                    let j = choose|j: int| 0 <= j < k && #[trigger] names.take(k as int)[j] == word;
                    assert(names.take(k + 1)[j] == word);
                }
                if conflict_names(conflicts@).contains(word) && !conflict_names(before).contains(word) {
                    assert(word == name@);
                    assert(names.take(k + 1)[k as int] == word);
                }
                if conflict_names(before).contains(word) {
                    let j = choose|j: int| 0 <= j < before.len() && #[trigger] conflict_names(before)[j] == word;
                    assert(conflict_names(conflicts@)[j] == word);
                }
            }
        }
        k = k + 1;
    }
    proof {
        assert(names.take(crates@.len() as int) =~= names);
    }
    if conflicts.len() > 0 {
        proof {
            assert(conflict_names(conflicts@).contains(conflict_names(conflicts@)[0]));
        }
        Err(WorkspaceError::DuplicateLibraryCrates(conflicts))
    } else {
        proof {
            assert forall|name: Seq<char>| !#[trigger] conflicting(views, audited_view(audited), name) by {
                if conflicting(views, audited_view(audited), name) {
                    let a = choose|a: Seq<char>, b: Seq<char>| a != b && #[trigger] provides(views, name, a) && #[trigger] provides(views, name, b);
                    let j = choose|j: int| 0 <= j < views.len() && #[trigger] views[j] == (name, a.0);
                    assert(has_crate(views, name));
                    assert(names.contains(name));
                    assert(!conflict_names(conflicts@).contains(name));
                }
            }
        }
        Ok(crates)
    }
}

/// Checks that each excluded crate is a candidate library crate; refused with the unknown
/// ones and the candidates, each once, in increasing order.
pub fn validate_excluded_crates(excluded: &[String], candidates: &Vec<String>) -> (result: Result<(), WorkspaceError>)
    ensures
        match result {
            Ok(()) => forall|i: int| 0 <= i < excluded@.len() ==> texts(candidates@).contains(#[trigger] excluded@[i]@),
            Err(WorkspaceError::UnknownExcludedCrates { unknown, valid }) => {
                &&& exists|i: int| 0 <= i < excluded@.len() && !texts(candidates@).contains(#[trigger] excluded@[i]@)
                &&& crate::sorted::increasing(texts(unknown@))
                &&& forall|name: Seq<char>| texts(unknown@).contains(name) <==> (texts(excluded@).contains(name) && !texts(candidates@).contains(name))
                &&& crate::sorted::increasing(texts(valid@))
                &&& forall|name: Seq<char>| texts(valid@).contains(name) <==> texts(candidates@).contains(name)
            },
            Err(_) => false,
        },
{
    let mut unknown: Vec<String> = Vec::new();
    let mut k: usize = 0;
    while k < excluded.len()
        invariant
            k <= excluded@.len(),
            crate::sorted::increasing(texts(unknown@)),
            forall|name: Seq<char>| texts(unknown@).contains(name) <==> (texts(excluded@.take(k as int)).contains(name) && !texts(candidates@).contains(name)),
        decreases excluded@.len() - k,
    {
        let ghost before = texts(unknown@);
        if !crate::settings::contains_text(candidates, excluded[k].as_str()) {
            crate::sorted::insert_text(&mut unknown, excluded[k].as_str());
        }
        proof {
            assert(texts(excluded@.take(k + 1)) =~= texts(excluded@.take(k as int)).push(excluded@[k as int]@));
            assert forall|name: Seq<char>| texts(unknown@).contains(name) <==> (texts(excluded@.take(k + 1)).contains(name) && !texts(candidates@).contains(name)) by {
                crate::sorted::lemma_push_contains(texts(excluded@.take(k as int)), excluded@[k as int]@, name);
            }
        }
        k = k + 1;
    }
    proof {
        assert(excluded@.take(excluded@.len() as int) =~= excluded@);
    }
    if unknown.len() == 0 {
        proof {
            assert forall|i: int| 0 <= i < excluded@.len() implies texts(candidates@).contains(#[trigger] excluded@[i]@) by {
                assert(texts(excluded@)[i] == excluded@[i]@);
                if !texts(candidates@).contains(excluded@[i]@) {
                    assert(texts(unknown@).contains(excluded@[i]@));
                }
            }
        }
        return Ok(());
    }
    proof {
        assert(texts(unknown@).contains(texts(unknown@)[0]));
        let i = choose|i: int| 0 <= i < texts(excluded@).len() && texts(excluded@)[i] == texts(unknown@)[0];
        assert(excluded@[i]@ == texts(unknown@)[0]);
    }
    let valid = crate::sorted::sorted_texts(candidates.as_slice());
    Err(WorkspaceError::UnknownExcludedCrates { unknown, valid })
}

/// Walks the library targets in order: each one whose crate is still wanted is claimed, and
/// its package listed. What is left wanted, and the packages listed.
pub open spec fn claims(pairs: Seq<(Seq<char>, Seq<char>)>, wanted: Set<Seq<char>>) -> (Set<Seq<char>>, Seq<Seq<char>>)
    decreases pairs.len(),
{
    if pairs.len() == 0 {
        (wanted, Seq::empty())
    } else {
        let previous = claims(pairs.drop_last(), wanted);
        if previous.0.contains(pairs.last().0) {
            (previous.0.remove(pairs.last().0), previous.1.push(pairs.last().1))
        } else {
            previous
        }
    }
}

/// The crates that a fix plan edits.
pub open spec fn fix_crates(plan: crate::model::FixPlan) -> Set<Seq<char>> {
    Set::new(|name: Seq<char>| exists|i: int| 0 <= i < plan.targets@.len() && #[trigger] plan.targets@[i].crate_name@ == name)
}

/// The packages whose library targets a fix plan edits, in package order, one for each crate;
/// refused with the crates, in increasing order, that no library target provides.
pub fn fix_packages(metadata: &WorkspaceMetadata, plan: &crate::model::FixPlan) -> (result: Result<Vec<String>, WorkspaceError>)
    ensures
        match result {
            Ok(packages) => {
                &&& claims(all_library_pairs(*metadata, false), fix_crates(*plan)).0 == Set::<Seq<char>>::empty()
                &&& texts(packages@) == claims(all_library_pairs(*metadata, false), fix_crates(*plan)).1
            },
            Err(WorkspaceError::UnidentifiedFixCrates(crates)) => {
                &&& claims(all_library_pairs(*metadata, false), fix_crates(*plan)).0 != Set::<Seq<char>>::empty()
                &&& crate::sorted::increasing(texts(crates@))
                &&& forall|name: Seq<char>| texts(crates@).contains(name) <==> claims(all_library_pairs(*metadata, false), fix_crates(*plan)).0.contains(name)
            },
            Err(_) => false,
        },
{
    let mut names: Vec<String> = Vec::new();
    let mut t: usize = 0;
    while t < plan.targets.len()
        invariant
            t <= plan.targets@.len(),
            forall|name: Seq<char>| texts(names@).contains(name) <==> exists|i: int| 0 <= i < t && #[trigger] plan.targets@[i].crate_name@ == name,
        decreases plan.targets@.len() - t,
    {
        let ghost before = texts(names@);
        names.push(plan.targets[t].crate_name.clone());
        proof {
            assert(texts(names@) =~= before.push(plan.targets@[t as int].crate_name@));
            assert forall|name: Seq<char>| texts(names@).contains(name) <==> exists|i: int| 0 <= i < t + 1 && #[trigger] plan.targets@[i].crate_name@ == name by {
                crate::sorted::lemma_push_contains(before, plan.targets@[t as int].crate_name@, name);
            }
        }
        t = t + 1;
    }
    let mut remaining = crate::sorted::sorted_texts(names.as_slice());
    let ghost wanted = fix_crates(*plan);
    let pairs = library_pairs_of(metadata, false);
    let ghost views = pair_views(pairs@);
    let mut packages: Vec<String> = Vec::new();
    let mut k: usize = 0;
    proof {
        assert(claims(views.take(0), wanted) == (wanted, Seq::<Seq<char>>::empty()));
    }
    while k < pairs.len()
        invariant
            views == pair_views(pairs@),
            k <= pairs@.len(),
            crate::sorted::increasing(texts(remaining@)),
            forall|name: Seq<char>| texts(remaining@).contains(name) <==> claims(views.take(k as int), wanted).0.contains(name),
            texts(packages@) == claims(views.take(k as int), wanted).1,
        decreases pairs@.len() - k,
    {
        let ghost previous = claims(views.take(k as int), wanted);
        let ghost before = texts(packages@);
        proof {
            assert(views.take(k + 1).drop_last() =~= views.take(k as int));
            assert(views.take(k + 1).last() == (pairs@[k as int].0@, pairs@[k as int].1@));
        }
        if crate::sorted::remove_text(&mut remaining, pairs[k].0.as_str()) {
            packages.push(pairs[k].1.clone());
            proof {
                assert(texts(packages@) =~= before.push(pairs@[k as int].1@));
            }
        }
        k = k + 1;
    }
    proof {
        assert(views.take(pairs@.len() as int) =~= views);
    }
    if remaining.len() == 0 {
        proof {
            assert(claims(views, wanted).0 =~= Set::<Seq<char>>::empty()) by {
                assert forall|name: Seq<char>| !claims(views, wanted).0.contains(name) by {
                    if claims(views, wanted).0.contains(name) {
                        assert(texts(remaining@).contains(name));
                    }
                }
            }
        }
        Ok(packages)
    } else {
        proof {
            assert(texts(remaining@).contains(texts(remaining@)[0]));
            assert(claims(views, wanted).0.contains(texts(remaining@)[0]));
        }
        Err(WorkspaceError::UnidentifiedFixCrates(remaining))
    }
}

/// Whether package `i` is the first workspace member named `name`.
pub open spec fn first_workspace_package(metadata: WorkspaceMetadata, name: Seq<char>, i: int) -> bool {
    &&& 0 <= i < metadata.packages@.len()
    &&& metadata.packages@[i].name@ == name
    &&& is_member(metadata, metadata.packages@[i].id@)
    &&& forall|j: int| 0 <= j < i ==> !((#[trigger] metadata.packages@[j]).name@ == name && is_member(metadata, metadata.packages@[j].id@))
}

/// The first workspace member named `name`; refused when there is none.
pub fn workspace_package<'a>(metadata: &'a WorkspaceMetadata, name: &str) -> (result: Result<&'a PackageInfo, WorkspaceError>)
    ensures
        match result {
            Ok(package) => exists|i: int| #[trigger] first_workspace_package(*metadata, name@, i) && *package == metadata.packages@[i],
            Err(WorkspaceError::UnknownPackage(unknown)) => {
                &&& unknown@ == name@
                &&& !exists|i: int| #[trigger] first_workspace_package(*metadata, name@, i)
            },
            Err(_) => false,
        },
{
    let mut k: usize = 0;
    while k < metadata.packages.len()
        invariant
            k <= metadata.packages@.len(),
            forall|j: int| 0 <= j < k ==> !((#[trigger] metadata.packages@[j]).name@ == name@ && is_member(*metadata, metadata.packages@[j].id@)),
        decreases metadata.packages@.len() - k,
    {
        let candidate = &metadata.packages[k];
        if crate::text::str_equals(candidate.name.as_str(), name) && crate::workspace::member_id(metadata, candidate.id.as_str()) {
            proof {
                assert(first_workspace_package(*metadata, name@, k as int));
            }
            return Ok(candidate);
        }
        k = k + 1;
    }
    Err(WorkspaceError::UnknownPackage(name.to_string()))
}

/// Checks that `name` is a workspace member.
pub fn validate_package(metadata: &WorkspaceMetadata, name: &str) -> (result: Result<(), WorkspaceError>)
    ensures
        match result {
            Ok(()) => exists|i: int| #[trigger] first_workspace_package(*metadata, name@, i),
            Err(WorkspaceError::UnknownPackage(unknown)) => {
                &&& unknown@ == name@
                &&& !exists|i: int| #[trigger] first_workspace_package(*metadata, name@, i)
            },
            Err(_) => false,
        },
{
    match workspace_package(metadata, name) {
        Ok(_) => Ok(()),
        Err(error) => Err(error),
    }
}

/// Whether a target is the product: named as it, and a binary target for a binary, a library
/// target for a library.
pub open spec fn builds_product(target: PackageTarget, product: crate::config::ProductionProduct) -> bool {
    &&& target.name@ == product.product_name()
    &&& match product {
        crate::config::ProductionProduct::Binary(_) => target.kinds@.contains(TargetKind::Bin),
        crate::config::ProductionProduct::Library(_) => library_target(target),
    }
}

fn has_kind(kinds: &Vec<TargetKind>, kind: TargetKind) -> (found: bool)
    ensures
        found == kinds@.contains(kind),
{
    let mut k: usize = 0;
    while k < kinds.len()
        invariant
            k <= kinds@.len(),
            forall|j: int| 0 <= j < k ==> kinds@[j] != kind,
        decreases kinds@.len() - k,
    {
        if kinds[k] == kind {
            return true;
        }
        k = k + 1;
    }
    false
}

/// Checks that the workspace member `package` has a target that builds `product`.
pub fn validate_product(metadata: &WorkspaceMetadata, package: &str, product: &crate::config::ProductionProduct) -> (result: Result<(), WorkspaceError>)
    ensures
        match result {
            Ok(()) => exists|i: int| #[trigger] first_workspace_package(*metadata, package@, i) && exists|t: int|
                0 <= t < metadata.packages@[i].targets@.len() && builds_product(#[trigger] metadata.packages@[i].targets@[t], *product),
            Err(WorkspaceError::UnknownPackage(unknown)) => {
                &&& unknown@ == package@
                &&& !exists|i: int| #[trigger] first_workspace_package(*metadata, package@, i)
            },
            Err(WorkspaceError::MissingProduct { package: named, kind, name }) => {
                &&& named@ == package@
                &&& kind == (if *product is Binary { crate::model::ProductionTargetKind::Binary } else { crate::model::ProductionTargetKind::Library })
                &&& name@ == product.product_name()
                &&& exists|i: int| #[trigger] first_workspace_package(*metadata, package@, i) && forall|t: int|
                    0 <= t < metadata.packages@[i].targets@.len() ==> !builds_product(#[trigger] metadata.packages@[i].targets@[t], *product)
            },
            Err(_) => false,
        },
{
    let found = match workspace_package(metadata, package) {
        Ok(found) => found,
        Err(error) => return Err(error),
    };
    let ghost i = choose|i: int| #[trigger] first_workspace_package(*metadata, package@, i) && *found == metadata.packages@[i];
    let mut t: usize = 0;
    while t < found.targets.len()
        invariant
            t <= found.targets@.len(),
            first_workspace_package(*metadata, package@, i),
            *found == metadata.packages@[i],
            forall|j: int| 0 <= j < t ==> !builds_product(#[trigger] found.targets@[j], *product),
        decreases found.targets@.len() - t,
    {
        let target = &found.targets[t];
        let builds = crate::text::str_equals(target.name.as_str(), product.name()) && match product {
            crate::config::ProductionProduct::Binary(_) => has_kind(&target.kinds, TargetKind::Bin),
            crate::config::ProductionProduct::Library(_) => is_library_target(target),
        };
        if builds {
            proof {
                assert(builds_product(metadata.packages@[i].targets@[t as int], *product));
            }
            return Ok(());
        }
        t = t + 1;
    }
    Err(WorkspaceError::MissingProduct { package: found.name.clone(), kind: product.kind(), name: product.name().to_string() })
}

/// A name between backticks.
pub open spec fn quoted(word: Seq<char>) -> Seq<char> {
    "`"@ + word + "`"@
}

/// Texts one after the other, with `separator` between two.
pub open spec fn joined(words: Seq<Seq<char>>, separator: Seq<char>) -> Seq<char>
    decreases words.len(),
{
    if words.len() == 0 {
        Seq::empty()
    } else if words.len() == 1 {
        words[0]
    } else {
        joined(words.drop_last(), separator) + separator + words.last()
    }
}

/// Names between backticks, separated by commas.
pub open spec fn quoted_list(words: Seq<Seq<char>>) -> Seq<char> {
    joined(words.map_values(|word: Seq<char>| quoted(word)), ", "@)
}

/// How a conflict reads: the crate, and its packages in brackets.
pub open spec fn conflict_text(conflict: CrateConflict) -> Seq<char> {
    quoted(conflict.crate_name@) + " ("@ + quoted_list(texts(conflict.packages@)) + ")"@
}

/// The word for a kind of product target.
pub open spec fn target_kind_word(kind: crate::model::ProductionTargetKind) -> Seq<char> {
    match kind {
        crate::model::ProductionTargetKind::Binary => "bin"@,
        crate::model::ProductionTargetKind::Library => "lib"@,
    }
}

/// The message that reports an error.
pub open spec fn workspace_error_text(error: WorkspaceError) -> Seq<char> {
    match error {
        WorkspaceError::UnresolvedDependencies => "Cargo metadata did not contain a resolved dependency graph"@,
        WorkspaceError::DuplicateLibraryCrates(conflicts) => "workspace library crate names must be unique; conflicting names: "@
            + joined(conflicts@.map_values(|conflict: CrateConflict| conflict_text(conflict)), "; "@)
            + ". Hawk identifies graph definitions and fix targets by crate name; give each `[lib]` target a unique `name`"@,
        WorkspaceError::UnknownExcludedCrates { unknown, valid } => if valid@.len() == 0 {
            "unknown --exclude-crate value(s): "@ + quoted_list(texts(unknown@)) + "; this workspace has no library crates"@
        } else {
            "unknown --exclude-crate value(s): "@ + quoted_list(texts(unknown@)) + "; valid workspace library crate names: "@
                + quoted_list(texts(valid@))
        },
        WorkspaceError::UnidentifiedFixCrates(crates) => "could not identify Cargo library package(s) for fixes in crate(s): "@
            + joined(texts(crates@), ", "@),
        WorkspaceError::UnknownPackage(package) => "package `"@ + package@ + "` is not in the selected workspace"@,
        WorkspaceError::MissingProduct { package, kind, name } => "package `"@ + package@ + "` has no "@ + target_kind_word(kind)
            + " target `"@ + name@ + "`"@,
        WorkspaceError::InvalidDependencyTarget(selector) => "dependency platform selector `"@ + selector@ + "` is not a valid target or cfg expression"@,
    }
}

/// Appends texts with `separator` between two, each between backticks when `quote` holds.
fn push_joined(output: &mut String, words: &Vec<String>, separator: &str, quote: bool)
    ensures
        final(output)@ == old(output)@ + joined(
            if quote { texts(words@).map_values(|word: Seq<char>| quoted(word)) } else { texts(words@) },
            separator@,
        ),
{
    let ghost shown = if quote { texts(words@).map_values(|word: Seq<char>| quoted(word)) } else { texts(words@) };
    proof {
        reveal_strlit("`");
    }
    let mut k: usize = 0;
    while k < words.len()
        invariant
            shown == (if quote { texts(words@).map_values(|word: Seq<char>| quoted(word)) } else { texts(words@) }),
            shown.len() == words@.len(),
            k <= words@.len(),
            output@ == old(output)@ + joined(shown.take(k as int), separator@),
            "`"@ == seq!['`'],
        decreases words@.len() - k,
    {
        let ghost before = output@;
        if k > 0 {
            output.append(separator);
        }
        if quote {
            output.append("`");
            output.append(words[k].as_str());
            output.append("`");
        } else {
            output.append(words[k].as_str());
        }
        proof {
            let next = shown.take(k + 1);
            assert(next.drop_last() =~= shown.take(k as int));
            assert(shown[k as int] == (if quote { quoted(words@[k as int]@) } else { words@[k as int]@ }));
            if k == 0 {
                assert(joined(next, separator@) == next[0]);
                assert(output@ =~= old(output)@ + joined(next, separator@));
            } else {
                assert(joined(next, separator@) == joined(shown.take(k as int), separator@) + separator@ + shown[k as int]);
                assert(output@ =~= old(output)@ + joined(next, separator@));
            }
        }
        k = k + 1;
    }
    proof {
        assert(shown.take(words@.len() as int) =~= shown);
    }
}

impl WorkspaceError {
    /// The message that reports the error.
    pub fn message(&self) -> (text: String)
        ensures
            text@ == workspace_error_text(*self),
    {
        let mut text = String::new();
        match self {
            WorkspaceError::UnresolvedDependencies => {
                text.append("Cargo metadata did not contain a resolved dependency graph");
            },
            WorkspaceError::DuplicateLibraryCrates(conflicts) => {
                text.append("workspace library crate names must be unique; conflicting names: ");
                let ghost start = text@;
                let ghost shown = conflicts@.map_values(|conflict: CrateConflict| conflict_text(conflict));
                let mut k: usize = 0;
                while k < conflicts.len()
                    invariant
                        shown == conflicts@.map_values(|conflict: CrateConflict| conflict_text(conflict)),
                        k <= conflicts@.len(),
                        text@ == start + joined(shown.take(k as int), "; "@),
                    decreases conflicts@.len() - k,
                {
                    let ghost before = text@;
                    if k > 0 {
                        text.append("; ");
                    }
                    let ghost middle = text@;
                    text.append("`");
                    text.append(conflicts[k].crate_name.as_str());
                    text.append("` (");
                    push_joined(&mut text, &conflicts[k].packages, ", ", true);
                    text.append(")");
                    proof {
                        reveal_strlit("`");
                        reveal_strlit("` (");
                        reveal_strlit(" (");
                        reveal_strlit(")");
                        reveal_strlit("; ");
                        assert(text@ =~= middle + conflict_text(conflicts@[k as int]));
                        let next = shown.take(k + 1);
                        assert(next.drop_last() =~= shown.take(k as int));
                        assert(shown[k as int] == conflict_text(conflicts@[k as int]));
                        if k == 0 {
                            assert(text@ =~= start + joined(next, "; "@));
                        } else {
                            assert(text@ =~= start + joined(next, "; "@));
                        }
                    }
                    k = k + 1;
                }
                proof {
                    assert(shown.take(conflicts@.len() as int) =~= shown);
                }
                text.append(". Hawk identifies graph definitions and fix targets by crate name; give each `[lib]` target a unique `name`");
            },
            WorkspaceError::UnknownExcludedCrates { unknown, valid } => {
                text.append("unknown --exclude-crate value(s): ");
                push_joined(&mut text, unknown, ", ", true);
                if valid.len() == 0 {
                    text.append("; this workspace has no library crates");
                } else {
                    text.append("; valid workspace library crate names: ");
                    push_joined(&mut text, valid, ", ", true);
                }
            },
            WorkspaceError::UnidentifiedFixCrates(crates) => {
                text.append("could not identify Cargo library package(s) for fixes in crate(s): ");
                push_joined(&mut text, crates, ", ", false);
            },
            WorkspaceError::UnknownPackage(package) => {
                text.append("package `");
                text.append(package.as_str());
                text.append("` is not in the selected workspace");
            },
            WorkspaceError::MissingProduct { package, kind, name } => {
                text.append("package `");
                text.append(package.as_str());
                text.append("` has no ");
                match kind {
                    crate::model::ProductionTargetKind::Binary => text.append("bin"),
                    crate::model::ProductionTargetKind::Library => text.append("lib"),
                }
                text.append(" target `");
                text.append(name.as_str());
                text.append("`");
            },
            WorkspaceError::InvalidDependencyTarget(selector) => {
                text.append("dependency platform selector `");
                text.append(selector.as_str());
                text.append("` is not a valid target or cfg expression");
            },
        }
        proof {
            assert(text@ =~= workspace_error_text(*self));
        }
        text
    }
}

/// The library source of a workspace package: its library (or procedural macro) crate and the
/// path of that crate's root source file.
#[derive(Clone, Debug)]
pub struct WorkspaceLibrarySource {
    pub package: String,
    pub crate_name: String,
    pub path: String,
}

/// Whether a target is a library or procedural macro target.
pub open spec fn library_source_target(target: PackageTarget) -> bool {
    library_target(target) || target.kinds@.contains(TargetKind::ProcMacro)
}

/// The first library or procedural macro target among the first `t` targets of a package.
pub open spec fn first_source_target(package: PackageInfo, t: int) -> Option<int>
    decreases t,
{
    if t <= 0 {
        None
    } else if let Some(found) = first_source_target(package, t - 1) {
        Some(found)
    } else if library_source_target(package.targets@[t - 1]) {
        Some(t - 1)
    } else {
        None
    }
}

/// The views of library sources: package, crate and path.
pub open spec fn source_views(sources: Seq<WorkspaceLibrarySource>) -> Seq<(Seq<char>, Seq<char>, Seq<char>)> {
    sources.map_values(|source: WorkspaceLibrarySource| (source.package@, source.crate_name@, source.path@))
}

/// The library sources of the first `n` packages that are workspace members, in package order.
pub open spec fn library_sources(metadata: WorkspaceMetadata, n: int) -> Seq<(Seq<char>, Seq<char>, Seq<char>)>
    decreases n,
{
    if n <= 0 {
        Seq::empty()
    } else {
        let package = metadata.packages@[n - 1];
        let earlier = library_sources(metadata, n - 1);
        if is_member(metadata, package.id@) && first_source_target(package, package.targets@.len() as int) is Some {
            let target = package.targets@[first_source_target(package, package.targets@.len() as int)->0];
            earlier.push((package.name@, crate_name_of(target.name@), target.source_path@))
        } else {
            earlier
        }
    }
}

/// The library source of each workspace package that has a library or procedural macro target,
/// in package order, with the source path as the metadata gives it.
pub fn workspace_library_sources(metadata: &WorkspaceMetadata) -> (sources: Vec<WorkspaceLibrarySource>)
    ensures
        source_views(sources@) == library_sources(*metadata, metadata.packages@.len() as int),
{
    let mut sources: Vec<WorkspaceLibrarySource> = Vec::new();
    let mut n: usize = 0;
    while n < metadata.packages.len()
        invariant
            n <= metadata.packages@.len(),
            source_views(sources@) == library_sources(*metadata, n as int),
        decreases metadata.packages@.len() - n,
    {
        let package = &metadata.packages[n];
        if crate::workspace::member_id(metadata, package.id.as_str()) {
            let mut t: usize = 0;
            let mut found: Option<usize> = None;
            while t < package.targets.len() && found.is_none()
                invariant
                    t <= package.targets@.len(),
                    found is Some <==> first_source_target(*package, t as int) is Some,
                    found matches Some(f) ==> f < t && first_source_target(*package, t as int) == Some(f as int),
                decreases package.targets@.len() - t,
            {
                let target = &package.targets[t];
                if is_library_target(target) || has_kind(&target.kinds, TargetKind::ProcMacro) {
                    found = Some(t);
                }
                t = t + 1;
            }
            proof {
                lemma_first_source_target_stays(*package, t as int, package.targets@.len() as int);
            }
            if let Some(f) = found {
                let target = &package.targets[f];
                let ghost before = sources@;
                sources.push(WorkspaceLibrarySource {
                    package: package.name.clone(),
                    crate_name: crate_name(target.name.as_str()),
                    path: target.source_path.clone(),
                });
                proof {
                    assert(source_views(sources@) =~= source_views(before).push((package.name@, crate_name_of(target.name@), target.source_path@)));
                }
            }
        }
        n = n + 1;
    }
    sources
}

proof fn lemma_first_source_target_stays(package: PackageInfo, t: int, end: int)
    requires
        0 <= t <= end,
        first_source_target(package, t) is Some || t == end,
    ensures
        first_source_target(package, end) == first_source_target(package, t),
    decreases end - t,
{
    if t < end {
        lemma_first_source_target_stays(package, t + 1, end);
    }
}

/// Whether definition id `a` comes before `b`: by crate, then by hash.
pub open spec fn id_before(a: crate::model::DefinitionId, b: crate::model::DefinitionId) -> bool {
    a.stable_crate_id < b.stable_crate_id || (a.stable_crate_id == b.stable_crate_id && a.local_hash < b.local_hash)
}

/// Whether each id comes before the next.
pub open spec fn ids_increasing(ids: Seq<crate::model::DefinitionId>) -> bool {
    forall|i: int, j: int| 0 <= i < j < ids.len() ==> id_before(#[trigger] ids[i], #[trigger] ids[j])
}

/// Adds an id to an increasing list of ids, unless it is listed already.
fn insert_id(sorted: &mut Vec<crate::model::DefinitionId>, id: crate::model::DefinitionId)
    requires
        ids_increasing(old(sorted)@),
    ensures
        ids_increasing(final(sorted)@),
        forall|other: crate::model::DefinitionId| final(sorted)@.contains(other) <==> (old(sorted)@.contains(other) || other == id),
{
    let mut at: usize = 0;
    while at < sorted.len() && (sorted[at].stable_crate_id < id.stable_crate_id || (sorted[at].stable_crate_id == id.stable_crate_id && sorted[at].local_hash < id.local_hash))
        invariant
            sorted@ == old(sorted)@,
            ids_increasing(sorted@),
            at <= sorted@.len(),
            forall|i: int| 0 <= i < at ==> id_before(#[trigger] sorted@[i], id),
        decreases sorted@.len() - at,
    {
        at = at + 1;
    }
    if at < sorted.len() && sorted[at].stable_crate_id == id.stable_crate_id && sorted[at].local_hash == id.local_hash {
        proof {
            assert(sorted@[at as int] == id);
        }
        return;
    }
    let ghost before = sorted@;
    sorted.insert(at, id);
    proof {
        assert(sorted@ == before.insert(at as int, id));
        assert(before == old(sorted)@);
        assert(sorted@.len() == before.len() + 1);
        assert forall|i: int, j: int| 0 <= i < j < sorted@.len() implies id_before(#[trigger] sorted@[i], #[trigger] sorted@[j]) by {
            if j < at {
                assert(sorted@[i] == before[i] && sorted@[j] == before[j]);
            } else if j == at {
                assert(sorted@[i] == before[i]);
            } else if i < at {
                assert(sorted@[i] == before[i] && sorted@[j] == before[j - 1]);
                assert(id_before(before[i], id));
                assert(!id_before(before[at as int], id));
            } else if i == at {
                assert(sorted@[j] == before[j - 1]);
                assert(!id_before(before[at as int], id));
            } else {
                assert(sorted@[i] == before[i - 1] && sorted@[j] == before[j - 1]);
            }
        }
        assert forall|other: crate::model::DefinitionId| sorted@.contains(other) <==> (before.contains(other) || other == id) by {
            if sorted@.contains(other) {
                let j = choose|j: int| 0 <= j < sorted@.len() && sorted@[j] == other;
                if j < at {
                    assert(before[j] == other);
                } else if j > at {
                    assert(before[j - 1] == other);
                }
            }
            if before.contains(other) {
                let j = choose|j: int| 0 <= j < before.len() && before[j] == other;
                if j < at {
                    assert(sorted@[j] == other);
                } else {
                    assert(sorted@[j + 1] == other);
                }
            }
            if other == id {
                assert(sorted@[at as int] == other);
            }
        }
        assert forall|other: crate::model::DefinitionId| #[trigger] sorted@.contains(other) <==> (old(sorted)@.contains(other) || other == id) by {
            assert(sorted@.contains(other) <==> (before.contains(other) || other == id));
        }
    }
}

/// The index of the last source of package `package`.
pub open spec fn source_of(sources: Seq<(Seq<char>, Seq<char>, Seq<char>)>, package: Seq<char>) -> Option<int>
    decreases sources.len(),
{
    if sources.len() == 0 {
        None
    } else if sources.last().0 == package {
        Some(sources.len() - 1)
    } else {
        source_of(sources.drop_last(), package)
    }
}

/// Whether a fragment's crate is its package's library, by crate name and root source path.
pub open spec fn is_package_library(sources: Seq<(Seq<char>, Seq<char>, Seq<char>)>, fragment: crate::model::Fragment, root: Seq<char>) -> bool {
    source_of(sources, fragment.package_name@) matches Some(i) && sources[i].1 == fragment.crate_name@ && sources[i].2 == root
}

/// Whether `path` is the root source path of some library source.
pub open spec fn is_library_path(sources: Seq<(Seq<char>, Seq<char>, Seq<char>)>, path: Seq<char>) -> bool {
    exists|i: int| 0 <= i < sources.len() && (#[trigger] sources[i]).2 == path
}

proof fn lemma_source_of_in_range(sources: Seq<(Seq<char>, Seq<char>, Seq<char>)>, package: Seq<char>)
    ensures
        source_of(sources, package) matches Some(i) ==> 0 <= i < sources.len() && sources[i].0 == package,
    decreases sources.len(),
{
    if sources.len() > 0 && sources.last().0 != package {
        lemma_source_of_in_range(sources.drop_last(), package);
    }
}

fn last_source_of(sources: &[WorkspaceLibrarySource], package: &str) -> (found: Option<usize>)
    ensures
        match found {
            Some(i) => source_of(source_views(sources@), package@) == Some(i as int),
            None => source_of(source_views(sources@), package@) is None,
        },
{
    let ghost views = source_views(sources@);
    let mut k: usize = sources.len();
    proof {
        assert(views.take(k as int) =~= views);
    }
    while k > 0
        invariant
            views == source_views(sources@),
            k <= sources@.len(),
            source_of(views, package@) == source_of(views.take(k as int), package@),
        decreases k,
    {
        proof {
            assert(views.take(k as int).drop_last() =~= views.take(k - 1));
            assert(views.take(k as int).last() == views[k - 1]);
        }
        if crate::text::str_equals(sources[k - 1].package.as_str(), package) {
            proof {
                assert(views[k - 1].0 == package@);
            }
            return Some(k - 1);
        }
        k = k - 1;
    }
    None
}

fn is_library_path_of(sources: &[WorkspaceLibrarySource], path: &str) -> (found: bool)
    ensures
        found == is_library_path(source_views(sources@), path@),
{
    let mut k: usize = 0;
    while k < sources.len()
        invariant
            k <= sources@.len(),
            forall|i: int| 0 <= i < k ==> (#[trigger] source_views(sources@)[i]).2 != path@,
        decreases sources@.len() - k,
    {
        if crate::text::str_equals(sources[k].path.as_str(), path) {
            proof {
                assert(source_views(sources@)[k as int].2 == path@);
            }
            return true;
        }
        k = k + 1;
    }
    false
}

/// Marks a library-shaped compilation that is not its package's library (a rustdoc bundle, an
/// example built as a library) as a non-production consumer, and roots its public
/// declarations unless it shares its source with a workspace library. Product roots, test
/// builds, and fragments without a crate root are left alone. `root` is the fragment's crate
/// root resolved against the workspace root and normalized as the library sources' paths are.
pub fn classify_non_production_target(
    fragment: &mut crate::model::Fragment,
    sources: &[WorkspaceLibrarySource],
    root: Option<&str>,
)
    ensures
        ({
            let sources = source_views(sources@);
            let unchanged = old(fragment).is_product_root || old(fragment).test_surface || root is None || is_package_library(
                sources,
                *old(fragment),
                root->0@,
            );
            &&& unchanged ==> *final(fragment) == *old(fragment)
            &&& !unchanged ==> {
                &&& final(fragment).is_product_root
                &&& final(fragment).non_production_consumer
                &&& *final(fragment) == (crate::model::Fragment {
                    is_product_root: true,
                    non_production_consumer: true,
                    roots: final(fragment).roots,
                    ..*old(fragment)
                })
                &&& is_library_path(sources, root->0@) ==> final(fragment).roots@ == old(fragment).roots@
                &&& !is_library_path(sources, root->0@) ==> {
                    &&& ids_increasing(final(fragment).roots@)
                    &&& forall|id: crate::model::DefinitionId| final(fragment).roots@.contains(id) <==> (old(fragment).roots@.contains(id)
                        || exists|d: int| 0 <= d < old(fragment).definitions@.len() && (#[trigger] old(fragment).definitions@[d]).public_api
                            && old(fragment).definitions@[d].id == id)
                }
            }
        }),
{
    if fragment.is_product_root || fragment.test_surface {
        return;
    }
    let root = match root {
        Some(root) => root,
        None => return,
    };
    if let Some(i) = last_source_of(sources, fragment.package_name.as_str()) {
        proof {
            lemma_source_of_in_range(source_views(sources@), fragment.package_name@);
        }
        if crate::text::str_equals(sources[i].crate_name.as_str(), fragment.crate_name.as_str())
            && crate::text::str_equals(sources[i].path.as_str(), root) {
            return;
        }
    }
    fragment.is_product_root = true;
    fragment.non_production_consumer = true;
    if !is_library_path_of(sources, root) {
        let ghost old_roots = fragment.roots@;
        let mut roots: Vec<crate::model::DefinitionId> = Vec::new();
        let mut k: usize = 0;
        while k < fragment.roots.len()
            invariant
                fragment.roots@ == old_roots,
                k <= old_roots.len(),
                ids_increasing(roots@),
                forall|id: crate::model::DefinitionId| roots@.contains(id) <==> old_roots.take(k as int).contains(id),
            decreases old_roots.len() - k,
        {
            insert_id(&mut roots, fragment.roots[k]);
            proof {
                assert forall|id: crate::model::DefinitionId| roots@.contains(id) <==> old_roots.take(k + 1).contains(id) by {
                    if old_roots.take(k + 1).contains(id) {
                        let j = choose|j: int| 0 <= j < k + 1 && #[trigger] old_roots.take(k + 1)[j] == id;
                        if j < k {
                            assert(old_roots.take(k as int)[j] == id);
                        }
                    }
                    if old_roots.take(k as int).contains(id) {
                        let j = choose|j: int| 0 <= j < k && #[trigger] old_roots.take(k as int)[j] == id;
                        assert(old_roots.take(k + 1)[j] == id);
                    }
                    if id == old_roots[k as int] {
                        assert(old_roots.take(k + 1)[k as int] == id);
                    }
                }
            }
            k = k + 1;
        }
        proof {
            assert(old_roots.take(old_roots.len() as int) =~= old_roots);
        }
        let ghost definitions = fragment.definitions@;
        let mut d: usize = 0;
        while d < fragment.definitions.len()
            invariant
                fragment.definitions@ == definitions,
                d <= definitions.len(),
                ids_increasing(roots@),
                forall|id: crate::model::DefinitionId| #[trigger] roots@.contains(id) <==> (old_roots.contains(id) || exists|e: int|
                    0 <= e < d && (#[trigger] definitions[e]).public_api && definitions[e].id == id),
            decreases definitions.len() - d,
        {
            let ghost before = roots@;
            if fragment.definitions[d].public_api {
                insert_id(&mut roots, fragment.definitions[d].id);
            }
            proof {
                assert forall|id: crate::model::DefinitionId| #[trigger] roots@.contains(id) <==> (old_roots.contains(id) || exists|e: int|
                    0 <= e < d + 1 && (#[trigger] definitions[e]).public_api && definitions[e].id == id) by {
                    if exists|e: int| 0 <= e < d + 1 && (#[trigger] definitions[e]).public_api && definitions[e].id == id {
                        let e = choose|e: int| 0 <= e < d + 1 && (#[trigger] definitions[e]).public_api && definitions[e].id == id;
                        if e < d {
                            assert(before.contains(id));
                        }
                    }
                    if roots@.contains(id) && !before.contains(id) {
                        assert(definitions[d as int].public_api && definitions[d as int].id == id);
                    }
                }
            }
            d = d + 1;
        }
        fragment.roots = roots;
    }
}

/// The (package name, target name) pairs of the binary targets among the first `t` targets of
/// a package, in target order.
pub open spec fn binary_target_pairs(package: PackageInfo, t: int) -> Seq<(Seq<char>, Seq<char>)>
    decreases t,
{
    if t <= 0 {
        Seq::empty()
    } else if package.targets@[t - 1].kinds@.contains(TargetKind::Bin) {
        binary_target_pairs(package, t - 1).push((package.name@, package.targets@[t - 1].name@))
    } else {
        binary_target_pairs(package, t - 1)
    }
}

/// The (package name, target name) pairs of the binary targets of the first `n` workspace
/// members, in package and target order.
pub open spec fn binary_pairs(metadata: WorkspaceMetadata, n: int) -> Seq<(Seq<char>, Seq<char>)>
    decreases n,
{
    if n <= 0 {
        Seq::empty()
    } else if is_member(metadata, metadata.packages@[n - 1].id@) {
        binary_pairs(metadata, n - 1) + binary_target_pairs(metadata.packages@[n - 1], metadata.packages@[n - 1].targets@.len() as int)
    } else {
        binary_pairs(metadata, n - 1)
    }
}

/// Whether pair `a` may come before pair `b`: by package name, then by target name, in byte
/// order.
pub open spec fn pair_at_most(a: (Seq<char>, Seq<char>), b: (Seq<char>, Seq<char>)) -> bool {
    text_order(a.0, b.0) < 0 || (a.0 == b.0 && text_order(a.1, b.1) <= 0)
}

/// Whether each pair may come before every later one.
pub open spec fn pairs_ordered(pairs: Seq<(Seq<char>, Seq<char>)>) -> bool {
    forall|i: int, j: int| 0 <= i < j < pairs.len() ==> pair_at_most(#[trigger] pairs[i], #[trigger] pairs[j])
}

proof fn lemma_pair_order_total(a: (Seq<char>, Seq<char>), b: (Seq<char>, Seq<char>))
    ensures
        pair_at_most(a, b) || pair_at_most(b, a),
        !pair_at_most(a, b) ==> pair_at_most(b, a) && a != b,
{
    crate::sorted::lemma_text_order(a.0, b.0);
    crate::sorted::lemma_text_order(a.1, b.1);
}

proof fn lemma_pair_order_transitive(a: (Seq<char>, Seq<char>), b: (Seq<char>, Seq<char>), c: (Seq<char>, Seq<char>))
    requires
        pair_at_most(a, b),
        pair_at_most(b, c),
    ensures
        pair_at_most(a, c),
{
    crate::sorted::lemma_text_order(a.0, b.0);
    crate::sorted::lemma_text_order(b.0, c.0);
    crate::sorted::lemma_text_order(a.0, c.0);
    crate::sorted::lemma_text_order(a.1, b.1);
    crate::sorted::lemma_text_order(b.1, c.1);
    crate::sorted::lemma_text_order(a.1, c.1);
    if text_order(a.0, b.0) < 0 && text_order(b.0, c.0) < 0 {
        crate::sorted::lemma_text_order_transitive(a.0, b.0, c.0);
    }
    if a.0 == b.0 && b.0 == c.0 && text_order(a.1, b.1) < 0 && text_order(b.1, c.1) < 0 {
        crate::sorted::lemma_text_order_transitive(a.1, b.1, c.1);
    }
}

fn pair_at_most_exec(a: &(String, String), b: &(String, String)) -> (result: bool)
    ensures
        result == pair_at_most((a.0@, a.1@), (b.0@, b.1@)),
{
    let first = crate::order::compare_texts(a.0.as_str(), b.0.as_str());
    proof {
        crate::sorted::lemma_text_order(a.0@, b.0@);
    }
    if first < 0 {
        return true;
    }
    if first > 0 {
        return false;
    }
    proof {
        crate::sorted::lemma_text_order(a.0@, b.0@);
    }
    crate::order::compare_texts(a.1.as_str(), b.1.as_str()) <= 0
}

proof fn lemma_insert_multiset(s: Seq<(Seq<char>, Seq<char>)>, i: int, x: (Seq<char>, Seq<char>))
    requires
        0 <= i <= s.len(),
    ensures
        s.insert(i, x).to_multiset() =~= s.to_multiset().insert(x),
{
    broadcast use vstd::seq_lib::group_to_multiset_ensures;
    let r = s.insert(i, x);
    assert(r.remove(i) =~= s);
    assert(r.remove(i).to_multiset() =~= r.to_multiset().remove(r[i]));
    assert(r.contains(x)) by {
        assert(r[i] == x);
    }
    assert(r.to_multiset().count(x) > 0);
}

/// The binary targets of the workspace members, as (package, target) name pairs, ordered by
/// package name and then target name.
pub fn workspace_binaries(metadata: &WorkspaceMetadata) -> (binaries: Vec<(String, String)>)
    ensures
        pairs_ordered(pair_views(binaries@)),
        pair_views(binaries@).to_multiset() == binary_pairs(*metadata, metadata.packages@.len() as int).to_multiset(),
{
    broadcast use vstd::seq_lib::group_to_multiset_ensures;
    let mut binaries: Vec<(String, String)> = Vec::new();
    let mut n: usize = 0;
    while n < metadata.packages.len()
        invariant
            n <= metadata.packages@.len(),
            pairs_ordered(pair_views(binaries@)),
            pair_views(binaries@).to_multiset() == binary_pairs(*metadata, n as int).to_multiset(),
        decreases metadata.packages@.len() - n,
    {
        let package = &metadata.packages[n];
        if crate::workspace::member_id(metadata, package.id.as_str()) {
            let ghost start = binary_pairs(*metadata, n as int);
            let mut t: usize = 0;
            while t < package.targets.len()
                invariant
                    t <= package.targets@.len(),
                    pairs_ordered(pair_views(binaries@)),
                    pair_views(binaries@).to_multiset() == (start + binary_target_pairs(*package, t as int)).to_multiset(),
                decreases package.targets@.len() - t,
            {
                let target = &package.targets[t];
                if has_kind(&target.kinds, TargetKind::Bin) {
                    let entry = (package.name.clone(), target.name.clone());
                    let ghost x = (entry.0@, entry.1@);
                    let ghost before = pair_views(binaries@);
                    let mut at: usize = 0;
                    while at < binaries.len() && pair_at_most_exec(&binaries[at], &entry)
                        invariant
                            pair_views(binaries@) == before,
                            x == (entry.0@, entry.1@),
                            at <= before.len(),
                            forall|i: int| 0 <= i < at ==> pair_at_most(#[trigger] before[i], x),
                        decreases before.len() - at,
                    {
                        at = at + 1;
                    }
                    binaries.insert(at, entry);
                    proof {
                        assert(pair_views(binaries@) =~= before.insert(at as int, x));
                        lemma_insert_multiset(before, at as int, x);
                        assert((start + binary_target_pairs(*package, t + 1)) =~= (start + binary_target_pairs(*package, t as int)).push(x));
                        (start + binary_target_pairs(*package, t as int)).to_multiset_ensures();
                        assert((start + binary_target_pairs(*package, t as int)).push(x).to_multiset() =~= (start + binary_target_pairs(
                            *package,
                            t as int,
                        )).to_multiset().insert(x));
                        assert(pair_views(binaries@).to_multiset() =~= (start + binary_target_pairs(*package, t + 1)).to_multiset());
                        let after = pair_views(binaries@);
                        assert forall|i: int, j: int| 0 <= i < j < after.len() implies pair_at_most(#[trigger] after[i], #[trigger] after[j]) by {
                            if at < before.len() {
                                lemma_pair_order_total(before[at as int], x);
                            }
                            if j < at {
                                assert(after[i] == before[i] && after[j] == before[j]);
                            } else if j == at {
                                assert(after[i] == before[i]);
                            } else if i < at {
                                assert(after[i] == before[i] && after[j] == before[j - 1]);
                                lemma_pair_order_transitive(before[i], x, before[at as int]);
                                if j - 1 > at {
                                    lemma_pair_order_transitive(before[i], before[at as int], before[j - 1]);
                                }
                            } else if i == at {
                                assert(after[j] == before[j - 1]);
                                if j - 1 > at {
                                    lemma_pair_order_transitive(x, before[at as int], before[j - 1]);
                                }
                            } else {
                                assert(after[i] == before[i - 1] && after[j] == before[j - 1]);
                            }
                        }
                    }
                } else {
                    proof {
                        assert(binary_target_pairs(*package, t + 1) == binary_target_pairs(*package, t as int));
                    }
                }
                t = t + 1;
            }
            proof {
                assert(binary_pairs(*metadata, n + 1) == start + binary_target_pairs(*package, package.targets@.len() as int));
            }
        }
        n = n + 1;
    }
    binaries
}

} // verus!
