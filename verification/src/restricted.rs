//! The narrower visibility that a restricted-visibility declaration can take.

use vstd::prelude::*;
use crate::model::{Definition, DefinitionId, DefinitionKind, FindingKind, Fragment};
use crate::frames::{chain, is_defined, definition_of, fragment_at, lemma_last_definition_unique};
use crate::nodes::{is_node, node_of, distinct_ids, lemma_node_of};
use crate::equivalence::same_source;
use crate::scope::{ScopeView, RequiredScope, is_prefix, names_of};
use crate::graph::{Graph, graph_of, lemma_liveness_nodes, lemma_same_source_numbered};
use crate::fixpoint::required_scope;

verus! {

/// The finding that one definition with restricted visibility earns, given the scope that
/// its uses require: none for enum variants, re-exports, unknown or foreign requirements.
pub open spec fn instance_kind(definition: Definition, scope: ScopeView) -> Option<FindingKind> {
    if definition.kind == DefinitionKind::EnumVariant || definition.kind == DefinitionKind::Reexport {
        None
    } else {
        match scope {
            ScopeView::Bottom => Some(FindingKind::UnnecessaryRestrictedVisibility),
            ScopeView::Unknown => None,
            ScopeView::Known { crate_name, module_scope } => {
                let own = names_of(definition.module_scope@);
                if crate_name != definition.crate_name@ {
                    None
                } else if is_prefix(own, module_scope) {
                    Some(FindingKind::UnnecessaryRestrictedVisibility)
                } else if definition.crate_visible_api && own.len() > 0 && is_prefix(own.drop_last(), module_scope) {
                    Some(FindingKind::UnnecessaryCrateVisibility)
                } else {
                    None
                }
            },
        }
    }
}

/// `id` shares its source declaration with another definition.
pub open spec fn grouped(frames: Seq<Fragment>, id: DefinitionId) -> bool {
    exists|b: DefinitionId| #[trigger] same_source(frames, id, b)
}

/// `member` is `id` or shares its source declaration.
pub open spec fn group_member(frames: Seq<Fragment>, id: DefinitionId, member: DefinitionId) -> bool {
    member == id || same_source(frames, id, member)
}

/// The finding that the definitions from the source declaration of `id` earn together:
/// none if one of them earns none, a reduction to the parent module if one of them needs
/// it, and privacy otherwise.
pub open spec fn group_kind(production: Seq<Fragment>, tests: Seq<Fragment>, id: DefinitionId) -> Option<FindingKind> {
    let frames = chain(production, tests);
    let kind_of = |member: DefinitionId| instance_kind(definition_of(frames, member), required_scope(production, tests, member));
    if exists|member: DefinitionId| #[trigger] group_member(frames, id, member) && kind_of(member) is None {
        None
    } else if exists|member: DefinitionId| #[trigger] group_member(frames, id, member) && kind_of(member) == Some(FindingKind::UnnecessaryCrateVisibility) {
        Some(FindingKind::UnnecessaryCrateVisibility)
    } else {
        Some(FindingKind::UnnecessaryRestrictedVisibility)
    }
}

/// The finding that `definition` earns for its restricted visibility.
pub open spec fn restricted_kind(production: Seq<Fragment>, tests: Seq<Fragment>, definition: Definition) -> Option<FindingKind> {
    if grouped(chain(production, tests), definition.id) {
        group_kind(production, tests, definition.id)
    } else {
        instance_kind(definition, required_scope(production, tests, definition.id))
    }
}

/// Whether the module path `prefix` names `path` or one of its ancestors.
fn path_starts_with(path: &Vec<String>, prefix: &Vec<String>, prefix_len: usize) -> (starts: bool)
    requires
        prefix_len <= prefix@.len(),
    ensures
        starts == is_prefix(names_of(prefix@).take(prefix_len as int), names_of(path@)),
{
    let ghost p = names_of(prefix@).take(prefix_len as int);
    let ghost q = names_of(path@);
    if prefix_len > path.len() {
        return false;
    }
    let mut i: usize = 0;
    while i < prefix_len
        invariant
            prefix_len <= prefix@.len(),
            prefix_len <= path@.len(),
            p == names_of(prefix@).take(prefix_len as int),
            q == names_of(path@),
            i <= prefix_len,
            forall|j: int| 0 <= j < i ==> q[j] == p[j],
        decreases prefix_len - i,
    {
        if path[i] != prefix[i] {
            proof {
                assert(q.take(p.len() as int)[i as int] != p[i as int]);
            }
            return false;
        }
        i = i + 1;
    }
    proof {
        assert(q.take(p.len() as int) =~= p);
    }
    true
}

/// The finding one definition earns on its own, given the requirement on it.
pub fn instance_finding_kind(definition: &Definition, scope: &RequiredScope) -> (kind: Option<FindingKind>)
    ensures
        kind == instance_kind(*definition, scope.view()),
{
    match definition.kind {
        DefinitionKind::EnumVariant | DefinitionKind::Reexport => return None,
        _ => {},
    }
    match scope {
        RequiredScope::Bottom => Some(FindingKind::UnnecessaryRestrictedVisibility),
        RequiredScope::Unknown => None,
        RequiredScope::Known { crate_name, module_scope } => {
            if *crate_name != definition.crate_name {
                None
            } else if path_starts_with(module_scope, &definition.module_scope, definition.module_scope.len()) {
                proof {
                    assert(names_of(definition.module_scope@).take(definition.module_scope@.len() as int) =~= names_of(definition.module_scope@));
                }
                Some(FindingKind::UnnecessaryRestrictedVisibility)
            } else {
                proof {
                    assert(names_of(definition.module_scope@).take(definition.module_scope@.len() as int) =~= names_of(definition.module_scope@));
                }
                if definition.crate_visible_api && definition.module_scope.len() > 0 {
                    let parent = definition.module_scope.len() - 1;
                    let starts = path_starts_with(module_scope, &definition.module_scope, parent);
                    proof {
                        assert(names_of(definition.module_scope@).take(parent as int) =~= names_of(definition.module_scope@).drop_last());
                    }
                    if starts {
                        Some(FindingKind::UnnecessaryCrateVisibility)
                    } else {
                        None
                    }
                } else {
                    None
                }
            }
        },
    }
}

/// The members of the source group of node `n`: node `m` shares its source declaration or is `n`.
proof fn lemma_group_members(production: Seq<Fragment>, tests: Seq<Fragment>, graph: Graph, n: int, x: DefinitionId)
    requires
        graph_of(production, tests, graph),
        0 <= n < graph.index.ids@.len(),
        graph.classes.class_of@[n] is Some,
    ensures
        group_member(chain(production, tests), graph.index.ids@[n], x) <==> exists|q: int| 0 <= q < graph.classes.members@[graph.classes.class_of@[n]->0 as int]@.len()
            && graph.index.ids@[#[trigger] graph.classes.members@[graph.classes.class_of@[n]->0 as int]@[q] as int] == x,
{
    let frames = chain(production, tests);
    let ids = graph.index.ids@;
    let c = graph.classes.class_of@[n]->0 as int;
    let members = graph.classes.members@[c]@;
    if group_member(frames, ids[n], x) {
        let m = if x == ids[n] { n } else {
            lemma_same_source_numbered(production, tests, graph, ids[n], x);
            node_of(ids, x)
        };
        lemma_liveness_nodes(production, tests, graph, n, m);
        assert(graph.classes.class_of@[m] == Some(c as usize));
        assert(graph.classes.class_of@[m] is Some);
        assert(members.contains(m as usize));
        let q = choose|q: int| 0 <= q < members.len() && members[q] == m as usize;
        assert(ids[graph.classes.members@[c]@[q] as int] == x);
    }
    if exists|q: int| 0 <= q < members.len() && ids[#[trigger] graph.classes.members@[c]@[q] as int] == x {
        let q = choose|q: int| 0 <= q < members.len() && ids[#[trigger] graph.classes.members@[c]@[q] as int] == x;
        let m = members[q] as int;
        assert(graph.classes.class_of@[m] == Some(c as usize));
        lemma_liveness_nodes(production, tests, graph, n, m);
    }
}

/// For each source group, the finding that its definitions earn together.
pub(crate) fn group_kinds(production: &[Fragment], tests: &[Fragment], graph: &Graph, scopes: &Vec<RequiredScope>) -> (kinds: Vec<Option<FindingKind>>)
    requires
        graph_of(production@, tests@, *graph),
        scopes@.len() == graph.index.ids@.len(),
        forall|n: int| 0 <= n < scopes@.len() ==> #[trigger] scopes@[n].view() == required_scope(production@, tests@, graph.index.ids@[n]),
    ensures
        kinds@.len() == graph.classes.members@.len(),
        forall|n: int| 0 <= n < graph.index.ids@.len() && #[trigger] graph.classes.class_of@[n] is Some
            ==> kinds@[graph.classes.class_of@[n]->0 as int] == group_kind(production@, tests@, graph.index.ids@[n]),
{
    let ghost frames = chain(production@, tests@);
    let ghost ids = graph.index.ids@;
    let mut kinds: Vec<Option<FindingKind>> = Vec::new();
    let mut c: usize = 0;
    while c < graph.classes.members.len()
        invariant
            graph_of(production@, tests@, *graph),
            frames == chain(production@, tests@),
            ids == graph.index.ids@,
            scopes@.len() == ids.len(),
            forall|n: int| 0 <= n < scopes@.len() ==> #[trigger] scopes@[n].view() == required_scope(production@, tests@, ids[n]),
            c <= graph.classes.members@.len(),
            kinds@.len() == c,
            forall|n: int| 0 <= n < ids.len() && #[trigger] graph.classes.class_of@[n] is Some && graph.classes.class_of@[n]->0 < c
                ==> kinds@[graph.classes.class_of@[n]->0 as int] == group_kind(production@, tests@, ids[n]),
        decreases graph.classes.members@.len() - c,
    {
        let members = &graph.classes.members[c];
        let ghost kind_of = |member: DefinitionId| instance_kind(definition_of(frames, member), required_scope(production@, tests@, member));
        let mut none_seen = false;
        let mut parent_seen = false;
        let mut i: usize = 0;
        while i < members.len()
            invariant
                graph_of(production@, tests@, *graph),
                frames == chain(production@, tests@),
                ids == graph.index.ids@,
                scopes@.len() == ids.len(),
                forall|n: int| 0 <= n < scopes@.len() ==> #[trigger] scopes@[n].view() == required_scope(production@, tests@, ids[n]),
                c < graph.classes.members@.len(),
                *members == graph.classes.members@[c as int],
                kind_of == (|member: DefinitionId| instance_kind(definition_of(frames, member), required_scope(production@, tests@, member))),
                i <= members@.len(),
                none_seen == exists|q: int| 0 <= q < i && kind_of(ids[#[trigger] members@[q] as int]) is None,
                parent_seen == exists|q: int| 0 <= q < i && kind_of(ids[#[trigger] members@[q] as int]) == Some(FindingKind::UnnecessaryCrateVisibility),
            decreases members@.len() - i,
        {
            let m = members[i];
            proof {
                assert(graph.classes.class_of@[m as int] == Some(c));
                assert(crate::equivalence::source_identity_of(frames, ids[m as int]) is Some);
            }
            match graph.positions[m] {
                Some((k, j)) => {
                    proof {
                        lemma_last_definition_unique(frames, ids[m as int], k as int, j as int);
                    }
                    let definition = &fragment_at(production, tests, k).definitions[j];
                    let kind = instance_finding_kind(definition, &scopes[m]);
                    match kind {
                        None => {
                            none_seen = true;
                        },
                        Some(FindingKind::UnnecessaryCrateVisibility) => {
                            parent_seen = true;
                        },
                        _ => {},
                    }
                },
                None => {
                    proof {
                        assert(false);
                    }
                },
            }
            i = i + 1;
        }
        let kind = if none_seen {
            None
        } else if parent_seen {
            Some(FindingKind::UnnecessaryCrateVisibility)
        } else {
            Some(FindingKind::UnnecessaryRestrictedVisibility)
        };
        proof {
            assert forall|n: int| 0 <= n < ids.len() && #[trigger] graph.classes.class_of@[n] is Some && graph.classes.class_of@[n]->0 == c
                implies kind == group_kind(production@, tests@, ids[n]) by {
                assert forall|x: DefinitionId| #[trigger] group_member(frames, ids[n], x) <==> exists|q: int| 0 <= q < members@.len() && ids[#[trigger] members@[q] as int] == x by {
                    lemma_group_members(production@, tests@, *graph, n, x);
                    if exists|q: int| 0 <= q < members@.len() && ids[#[trigger] members@[q] as int] == x {
                        let q = choose|q: int| 0 <= q < members@.len() && ids[#[trigger] members@[q] as int] == x;
                        assert(ids[graph.classes.members@[c as int]@[q] as int] == x);
                    }
                    if group_member(frames, ids[n], x) {
                        let q = choose|q: int| 0 <= q < graph.classes.members@[c as int]@.len() && ids[#[trigger] graph.classes.members@[c as int]@[q] as int] == x;
                        assert(ids[members@[q] as int] == x);
                    }
                }
                if none_seen {
                    let q = choose|q: int| 0 <= q < members@.len() && kind_of(ids[#[trigger] members@[q] as int]) is None;
                    assert(group_member(frames, ids[n], ids[members@[q] as int]));
                } else {
                    assert forall|x: DefinitionId| #[trigger] group_member(frames, ids[n], x) implies !(kind_of(x) is None) by {
                        let q = choose|q: int| 0 <= q < members@.len() && ids[#[trigger] members@[q] as int] == x;
                    }
                    if parent_seen {
                        let q = choose|q: int| 0 <= q < members@.len() && kind_of(ids[#[trigger] members@[q] as int]) == Some(FindingKind::UnnecessaryCrateVisibility);
                        assert(group_member(frames, ids[n], ids[members@[q] as int]));
                    } else {
                        assert forall|x: DefinitionId| #[trigger] group_member(frames, ids[n], x) implies kind_of(x) != Some(FindingKind::UnnecessaryCrateVisibility) by {
                            let q = choose|q: int| 0 <= q < members@.len() && ids[#[trigger] members@[q] as int] == x;
                        }
                    }
                }
            }
        }
        kinds.push(kind);
        c = c + 1;
    }
    kinds
}

/// The finding that `definition`, numbered `node`, earns for its restricted visibility.
pub(crate) fn restricted_finding_kind(
    production: &[Fragment],
    tests: &[Fragment],
    graph: &Graph,
    scopes: &Vec<RequiredScope>,
    kinds: &Vec<Option<FindingKind>>,
    definition: &Definition,
    node: usize,
) -> (kind: Option<FindingKind>)
    requires
        graph_of(production@, tests@, *graph),
        node < graph.index.ids@.len(),
        graph.index.ids@[node as int] == definition.id,
        scopes@.len() == graph.index.ids@.len(),
        forall|n: int| 0 <= n < scopes@.len() ==> #[trigger] scopes@[n].view() == required_scope(production@, tests@, graph.index.ids@[n]),
        kinds@.len() == graph.classes.members@.len(),
        forall|n: int| 0 <= n < graph.index.ids@.len() && #[trigger] graph.classes.class_of@[n] is Some
            ==> kinds@[graph.classes.class_of@[n]->0 as int] == group_kind(production@, tests@, graph.index.ids@[n]),
    ensures
        kind == restricted_kind(production@, tests@, *definition),
{
    let ghost frames = chain(production@, tests@);
    let ghost ids = graph.index.ids@;
    let grouped_here = match graph.classes.class_of[node] {
        Some(c) => graph.classes.members[c].len() > 1,
        None => false,
    };
    proof {
        if grouped_here {
            let c = graph.classes.class_of@[node as int]->0 as int;
            let members = graph.classes.members@[c]@;
            assert(members.contains(node));
            let q = choose|q: int| 0 <= q < members.len() && members[q] == node;
            let other = if q == 0 { 1int } else { 0int };
            let m = members[other] as int;
            assert(graph.classes.class_of@[m] == Some(c as usize));
            crate::equivalence::lemma_same_source_nodes(frames, ids, graph.classes, node as int, m);
            assert(m != node as int) by {
                if other < q {
                    assert(members[other] < members[q]);
                } else {
                    assert(members[q] < members[other]);
                }
            }
            assert(same_source(frames, ids[node as int], ids[m]));
        } else {
            assert forall|b: DefinitionId| !#[trigger] same_source(frames, definition.id, b) by {
                if same_source(frames, definition.id, b) {
                    lemma_same_source_numbered(production@, tests@, *graph, definition.id, b);
                    let m = node_of(ids, b);
                    lemma_liveness_nodes(production@, tests@, *graph, node as int, m);
                    let c = graph.classes.class_of@[node as int]->0 as int;
                    let members = graph.classes.members@[c]@;
                    assert(graph.classes.class_of@[node as int] is Some);
                    assert(graph.classes.class_of@[m] is Some);
                    assert(members.contains(node));
                    assert(members.contains(m as usize));
                    let q1 = choose|q: int| 0 <= q < members.len() && members[q] == node;
                    let q2 = choose|q: int| 0 <= q < members.len() && members[q] == m as usize;
                    assert(q1 != q2);
                }
            }
        }
    }
    if grouped_here {
        let c = graph.classes.class_of[node].unwrap();
        kinds[c]
    } else {
        instance_finding_kind(definition, &scopes[node])
    }
}

} // verus!
