//! The module scopes that compiled uses require of each declaration: the least solution of
//! the requirements that edges impose and propagate.

use vstd::prelude::*;
use crate::model::{DefinitionId, Edge, EdgeKind, Fragment};
use crate::reach::well_formed;
use crate::scope::{ScopeView, RequiredScope, scope_le, scope_join, names_of, lemma_join_is_least_upper_bound, lemma_scope_order};
use crate::nodes::{is_node, node_of, distinct_ids};
use crate::frames::{EdgeRef, chain, is_defined, definition_of, lemma_last_definition_unique, fragment_at, total_size};
use crate::equivalence::liveness_equivalent;
use crate::stars::{star_edge, lemma_star_correspondence};
use crate::adjacency::{build_adjacency, kept_edge, star_nodes};
use crate::reach::{has_edge, lists_of};
use crate::graph::{Graph, graph_of, all_edges, lemma_liveness_nodes, lemma_same_source_numbered};

verus! {

/// The requirement that an edge imposes on its target: the scope of its source
/// declaration, or no bound at all for re-exports, visible re-export parents, and
/// sources without a definition.
pub open spec fn requirement(frames: Seq<Fragment>, edge: Edge) -> ScopeView {
    if edge.kind == EdgeKind::Reexport || (edge.kind == EdgeKind::VisibilityParent && is_defined(frames, edge.from)
        && definition_of(frames, edge.from).visible_reexport_api) {
        ScopeView::Unknown
    } else if is_defined(frames, edge.from) {
        ScopeView::Known {
            crate_name: definition_of(frames, edge.from).crate_name@,
            module_scope: names_of(definition_of(frames, edge.from).module_scope@),
        }
    } else {
        ScopeView::Unknown
    }
}

/// An edge that constrains its target: not a self edge, and its target is defined.
pub open spec fn scoped_edge(frames: Seq<Fragment>, edge: Edge) -> bool {
    edge.from != edge.to && is_defined(frames, edge.to)
}

/// Edge kinds along which a visibility requirement travels.
pub open spec fn propagates(kind: EdgeKind) -> bool {
    kind == EdgeKind::Interface || kind == EdgeKind::Reexport || kind == EdgeKind::VisibilityParent
        || kind == EdgeKind::VisibilityRequirement
}

/// Liveness equivalence over the fragments, as a relation.
pub open spec fn liveness_relation(frames: Seq<Fragment>) -> spec_fn(DefinitionId, DefinitionId) -> bool {
    |a: DefinitionId, b: DefinitionId| liveness_equivalent(frames, a, b)
}

pub open spec fn everything() -> spec_fn(DefinitionId) -> bool {
    |a: DefinitionId| true
}

/// `assignment` meets every requirement: each scoped edge's requirement, propagation along
/// scoped edges of propagating kinds, and agreement across liveness-equivalent definitions.
pub open spec fn meets_requirements(frames: Seq<Fragment>, edges: Seq<Edge>, assignment: spec_fn(DefinitionId) -> ScopeView) -> bool {
    &&& forall|i: int| 0 <= i < edges.len() && scoped_edge(frames, #[trigger] edges[i]) ==> scope_le(requirement(frames, edges[i]), assignment(edges[i].to))
    &&& forall|i: int| 0 <= i < edges.len() && scoped_edge(frames, #[trigger] edges[i]) && propagates(edges[i].kind) ==> scope_le(assignment(edges[i].from), assignment(edges[i].to))
    &&& forall|a: DefinitionId, b: DefinitionId| #[trigger] star_edge(liveness_relation(frames), everything(), a, b) ==> scope_le(assignment(a), assignment(b))
}

/// `assignment` meets every requirement, and is below every assignment that does.
pub open spec fn least_requirements(frames: Seq<Fragment>, edges: Seq<Edge>, assignment: spec_fn(DefinitionId) -> ScopeView) -> bool {
    &&& meets_requirements(frames, edges, assignment)
    &&& forall|other: spec_fn(DefinitionId) -> ScopeView| #[trigger] meets_requirements(frames, edges, other) ==> forall|id: DefinitionId| scope_le(assignment(id), #[trigger] other(id))
}

/// The scope that the compiled uses of `id` require.
pub open spec fn required_scope(production: Seq<Fragment>, tests: Seq<Fragment>, id: DefinitionId) -> ScopeView {
    (choose|assignment: spec_fn(DefinitionId) -> ScopeView| least_requirements(chain(production, tests), all_edges(production, tests), assignment))(id)
}

/// The least solution is unique.
pub proof fn lemma_least_unique(frames: Seq<Fragment>, edges: Seq<Edge>, a: spec_fn(DefinitionId) -> ScopeView, b: spec_fn(DefinitionId) -> ScopeView, id: DefinitionId)
    requires
        least_requirements(frames, edges, a),
        least_requirements(frames, edges, b),
    ensures
        a(id) == b(id),
{
    assert(meets_requirements(frames, edges, b));
    assert(meets_requirements(frames, edges, a));
    assert(scope_le(a(id), b(id)));
    assert(scope_le(b(id), a(id)));
    lemma_scope_order(a(id), b(id), a(id));
}

/// The exact number of nodes without any requirement.
pub open spec fn bottoms(scopes: Seq<RequiredScope>) -> nat
    decreases scopes.len(),
{
    if scopes.len() == 0 {
        0
    } else {
        bottoms(scopes.drop_last()) + if scopes.last().view() is Bottom { 1nat } else { 0nat }
    }
}

/// The total height of the known requirements.
pub open spec fn weight(scopes: Seq<RequiredScope>) -> nat
    decreases scopes.len(),
{
    if scopes.len() == 0 {
        0
    } else {
        weight(scopes.drop_last()) + match scopes.last().view() {
            ScopeView::Known { module_scope, .. } => module_scope.len() + 1,
            _ => 0nat,
        }
    }
}

/// The measure that every growing join decreases.
pub open spec fn measure_less(b1: nat, w1: nat, b2: nat, w2: nat) -> bool {
    b1 < b2 || (b1 == b2 && w1 < w2)
}

proof fn lemma_update_measure(scopes: Seq<RequiredScope>, i: int, new: RequiredScope)
    requires
        0 <= i < scopes.len(),
    ensures
        bottoms(scopes.update(i, new)) + (if scopes[i].view() is Bottom { 1nat } else { 0nat })
            == bottoms(scopes) + (if new.view() is Bottom { 1nat } else { 0nat }),
        weight(scopes.update(i, new)) + (match scopes[i].view() { ScopeView::Known { module_scope, .. } => module_scope.len() + 1, _ => 0nat })
            == weight(scopes) + (match new.view() { ScopeView::Known { module_scope, .. } => module_scope.len() + 1, _ => 0nat }),
    decreases scopes.len(),
{
    let updated = scopes.update(i, new);
    if i == scopes.len() - 1 {
        assert(updated.drop_last() =~= scopes.drop_last());
    } else {
        assert(updated.drop_last() =~= scopes.drop_last().update(i, new));
        lemma_update_measure(scopes.drop_last(), i, new);
    }
}

/// A join that changes a requirement decreases the measure.
proof fn lemma_join_decreases(scopes: Seq<RequiredScope>, i: int, new: RequiredScope, other: ScopeView)
    requires
        0 <= i < scopes.len(),
        new.view() == scope_join(scopes[i].view(), other),
        new.view() != scopes[i].view(),
    ensures
        measure_less(bottoms(scopes.update(i, new)), weight(scopes.update(i, new)), bottoms(scopes), weight(scopes)),
{
    lemma_update_measure(scopes, i, new);
    let old_view = scopes[i].view();
    if let ScopeView::Known { crate_name, module_scope } = old_view {
        if let ScopeView::Known { crate_name: c2, module_scope: s2 } = new.view() {
            crate::scope::lemma_shared_len(module_scope, match other { ScopeView::Known { module_scope: o, .. } => o, _ => module_scope });
            assert(s2.len() < module_scope.len()) by {
                if let ScopeView::Known { crate_name: oc, module_scope: os } = other {
                    crate::scope::lemma_shared_len(module_scope, os);
                    if s2.len() == module_scope.len() {
                        assert(s2 =~= module_scope);
                    }
                }
            }
        }
    }
}

/// The requirements of the numbered scopes, read as an assignment to identifiers.
pub open spec fn assignment_of(ids: Seq<DefinitionId>, scopes: Seq<RequiredScope>) -> spec_fn(DefinitionId) -> ScopeView {
    |id: DefinitionId| if is_node(ids, id) { scopes[node_of(ids, id)].view() } else { ScopeView::Bottom }
}

/// The requirement that edge `e` of the graph imposes.
fn edge_requirement(production: &[Fragment], tests: &[Fragment], graph: &Graph, e: usize) -> (scope: RequiredScope)
    requires
        graph_of(production@, tests@, *graph),
        e < graph.all_edges@.len(),
    ensures
        scope.view() == requirement(chain(production@, tests@), all_edges(production@, tests@)[e as int]),
{
    let ghost frames = chain(production@, tests@);
    let edge = graph.all_edges[e];
    let ghost from_id = graph.index.ids@[edge.from as int];
    proof {
        assert(from_id == all_edges(production@, tests@)[e as int].from);
    }
    match graph.positions[edge.from] {
        Some((k, j)) => {
            proof {
                lemma_last_definition_unique(frames, from_id, k as int, j as int);
            }
            let fragment = fragment_at(production, tests, k);
            let definition = &fragment.definitions[j];
            proof {
                assert(definition_of(frames, from_id) == *definition);
            }
            if edge.kind == EdgeKind::Reexport || (edge.kind == EdgeKind::VisibilityParent && definition.visible_reexport_api) {
                RequiredScope::unknown()
            } else {
                RequiredScope::known(&definition.crate_name, &definition.module_scope)
            }
        },
        None => RequiredScope::unknown(),
    }
}

proof fn lemma_le_trans(a: ScopeView, b: ScopeView, c: ScopeView)
    requires
        scope_le(a, b),
        scope_le(b, c),
    ensures
        scope_le(a, c),
{
    lemma_scope_order(a, b, c);
}

proof fn lemma_measure_trans(b1: nat, w1: nat, b2: nat, w2: nat, b3: nat, w3: nat)
    requires
        measure_less(b1, w1, b2, w2),
        measure_less(b2, w2, b3, w3),
    ensures
        measure_less(b1, w1, b3, w3),
{
}

/// Requirements with the same views have the same measure.
proof fn lemma_measure_views(a: Seq<RequiredScope>, b: Seq<RequiredScope>)
    requires
        a.len() == b.len(),
        forall|n: int| 0 <= n < a.len() ==> #[trigger] a[n].view() == b[n].view(),
    ensures
        bottoms(a) == bottoms(b),
        weight(a) == weight(b),
    decreases a.len(),
{
    if a.len() > 0 {
        lemma_measure_views(a.drop_last(), b.drop_last());
        assert(a.last().view() == b.last().view());
    }
}

/// The kept propagation edges of the numbered graph.
pub open spec fn keeps_propagation(frames: Seq<Fragment>, edges: Seq<Edge>, keep: Seq<bool>) -> bool {
    &&& keep.len() == edges.len()
    &&& forall|i: int| 0 <= i < edges.len() ==> #[trigger] keep[i] == (scoped_edge(frames, edges[i]) && propagates(edges[i].kind))
}

/// Every edge of the propagation graph carries requirements in every assignment that meets them.
proof fn lemma_propagation_sound(production: Seq<Fragment>, tests: Seq<Fragment>, graph: Graph, keep: Seq<bool>, adj: Seq<Seq<usize>>)
    requires
        graph_of(production, tests, graph),
        keeps_propagation(chain(production, tests), all_edges(production, tests), keep),
        forall|n: int, m: int| #[trigger] has_edge(adj, n, m) ==> kept_edge(graph.all_edges@, keep, n, m)
            || (0 <= n < graph.index.ids@.len() && 0 <= m < graph.index.ids@.len()
                && star_edge(liveness_relation(chain(production, tests)), everything(), graph.index.ids@[n], graph.index.ids@[m])),
    ensures
        forall|n: int, m: int, other: spec_fn(DefinitionId) -> ScopeView| #[trigger] has_edge(adj, n, m) && #[trigger] meets_requirements(chain(production, tests), all_edges(production, tests), other)
            ==> scope_le(other(graph.index.ids@[n]), other(graph.index.ids@[m])),
{
    let frames = chain(production, tests);
    let edges = all_edges(production, tests);
    let ids = graph.index.ids@;
    let refs = graph.all_edges@;
    assert forall|n: int, m: int, other: spec_fn(DefinitionId) -> ScopeView| #[trigger] has_edge(adj, n, m) && #[trigger] meets_requirements(frames, edges, other)
        implies scope_le(other(ids[n]), other(ids[m])) by {
        if kept_edge(refs, keep, n, m) {
            let i = choose|i: int| 0 <= i < refs.len() && keep[i] && #[trigger] refs[i].from as int == n && refs[i].to as int == m;
            assert(ids[refs[i].from as int] == edges[i].from);
            assert(ids[refs[i].to as int] == edges[i].to);
            assert(keep[i]);
            assert(scoped_edge(frames, edges[i]) && propagates(edges[i].kind));
        } else {
            assert(star_edge(liveness_relation(frames), everything(), ids[n], ids[m]));
        }
    }
}

/// An assignment that meets the edges' requirements, is closed under the propagation graph,
/// and is below every assignment that meets them is the least one.
proof fn lemma_closed_assignment_is_least(production: Seq<Fragment>, tests: Seq<Fragment>, graph: Graph, keep: Seq<bool>, adj: Seq<Seq<usize>>, scopes: Seq<RequiredScope>)
    requires
        graph_of(production, tests, graph),
        keeps_propagation(chain(production, tests), all_edges(production, tests), keep),
        forall|n: int, m: int| kept_edge(graph.all_edges@, keep, n, m) ==> #[trigger] has_edge(adj, n, m),
        forall|n: int, m: int| 0 <= n < graph.index.ids@.len() && 0 <= m < graph.index.ids@.len()
            && star_edge(liveness_relation(chain(production, tests)), everything(), graph.index.ids@[n], graph.index.ids@[m]) ==> #[trigger] has_edge(adj, n, m),
        scopes.len() == graph.index.ids@.len(),
        forall|n: int, m: int| #[trigger] has_edge(adj, n, m) ==> scope_le(scopes[n].view(), scopes[m].view()),
        forall|i: int| 0 <= i < all_edges(production, tests).len() && scoped_edge(chain(production, tests), #[trigger] all_edges(production, tests)[i])
            ==> scope_le(requirement(chain(production, tests), all_edges(production, tests)[i]), scopes[graph.all_edges@[i].to as int].view()),
        forall|other: spec_fn(DefinitionId) -> ScopeView| #[trigger] meets_requirements(chain(production, tests), all_edges(production, tests), other)
            ==> forall|n: int| 0 <= n < scopes.len() ==> scope_le(#[trigger] scopes[n].view(), other(graph.index.ids@[n])),
    ensures
        least_requirements(chain(production, tests), all_edges(production, tests), assignment_of(graph.index.ids@, scopes)),
{
    let frames = chain(production, tests);
    let edges = all_edges(production, tests);
    let ids = graph.index.ids@;
    let refs = graph.all_edges@;
    let assignment = assignment_of(ids, scopes);
    assert forall|i: int| 0 <= i < edges.len() && scoped_edge(frames, #[trigger] edges[i]) implies scope_le(requirement(frames, edges[i]), assignment(edges[i].to)) by {
        crate::nodes::lemma_node_of(ids, refs[i].to as int);
    }
    assert forall|i: int| 0 <= i < edges.len() && scoped_edge(frames, #[trigger] edges[i]) && propagates(edges[i].kind) implies scope_le(assignment(edges[i].from), assignment(edges[i].to)) by {
        crate::nodes::lemma_node_of(ids, refs[i].to as int);
        crate::nodes::lemma_node_of(ids, refs[i].from as int);
        assert(keep[i]);
        assert(kept_edge(refs, keep, refs[i].from as int, refs[i].to as int));
        assert(has_edge(adj, refs[i].from as int, refs[i].to as int));
    }
    assert forall|a: DefinitionId, b: DefinitionId| #[trigger] star_edge(liveness_relation(frames), everything(), a, b) implies scope_le(assignment(a), assignment(b)) by {
        assert(liveness_equivalent(frames, a, b));
        lemma_same_source_numbered(production, tests, graph, a, b);
        let n = node_of(ids, a);
        let m = node_of(ids, b);
        assert(has_edge(adj, n, m));
    }
    assert(meets_requirements(frames, edges, assignment));
    assert forall|other: spec_fn(DefinitionId) -> ScopeView| #[trigger] meets_requirements(frames, edges, other) implies forall|id: DefinitionId| scope_le(assignment(id), #[trigger] other(id)) by {
        assert forall|id: DefinitionId| scope_le(assignment(id), #[trigger] other(id)) by {
            if is_node(ids, id) {
                let n = node_of(ids, id);
                assert(scope_le(scopes[n].view(), other(ids[n])));
            }
        }
    }
}

/// Computes the scope that the compiled uses of each node require: the least assignment
/// that meets every requirement.
#[verifier::rlimit(80)]
#[verifier::spinoff_prover]
pub(crate) fn required_scopes(production: &[Fragment], tests: &[Fragment], graph: &Graph) -> (scopes: Vec<RequiredScope>)
    requires
        graph_of(production@, tests@, *graph),
    ensures
        scopes@.len() == graph.index.ids@.len(),
        forall|n: int| 0 <= n < scopes@.len() ==> #[trigger] scopes@[n].view() == required_scope(production@, tests@, graph.index.ids@[n]),
{
    let ghost frames = chain(production@, tests@);
    let ghost edges = all_edges(production@, tests@);
    let ghost ids = graph.index.ids@;
    let node_count = graph.index.ids.len();
    let refs = &graph.all_edges;
    let mut keep: Vec<bool> = Vec::new();
    let mut e: usize = 0;
    while e < refs.len()
        invariant
            graph_of(production@, tests@, *graph),
            frames == chain(production@, tests@),
            edges == all_edges(production@, tests@),
            ids == graph.index.ids@,
            *refs == graph.all_edges,
            e <= refs@.len(),
            keep@.len() == e,
            forall|i: int| 0 <= i < e ==> #[trigger] keep@[i] == (scoped_edge(frames, edges[i]) && propagates(edges[i].kind)),
        decreases refs@.len() - e,
    {
        let edge = refs[e];
        let to_defined = graph.positions[edge.to].is_some();
        let propagating = edge.kind == EdgeKind::Interface || edge.kind == EdgeKind::Reexport
            || edge.kind == EdgeKind::VisibilityParent || edge.kind == EdgeKind::VisibilityRequirement;
        proof {
            assert(ids[edge.from as int] == edges[e as int].from);
            assert(ids[edge.to as int] == edges[e as int].to);
            assert((edge.from != edge.to) == (edges[e as int].from != edges[e as int].to));
        }
        keep.push(edge.from != edge.to && to_defined && propagating);
        e = e + 1;
    }
    let mut filter: Vec<bool> = Vec::new();
    while filter.len() < node_count
        invariant
            filter@.len() <= node_count,
            forall|n: int| 0 <= n < filter@.len() ==> filter@[n],
        decreases node_count - filter@.len(),
    {
        filter.push(true);
    }
    proof {
        assert forall|g: int, i: int| 0 <= g < graph.classes.members@.len() && 0 <= i < graph.classes.members@[g]@.len() implies (#[trigger] graph.classes.members@[g]@[i]) < ids.len() by {
        }
    }
    let adjacency = build_adjacency(&graph.index.ids, refs, &keep, &graph.classes.members, &graph.shares, &filter);
    proof {
        // The propagation edges are the scoped, propagating edges and the liveness stars.
        assert forall|n: int, m: int| 0 <= n < ids.len() && 0 <= m < ids.len() implies (star_nodes(ids, graph.classes.members@, graph.shares@, filter@, n, m)
            <==> star_edge(liveness_relation(frames), everything(), ids[n], ids[m])) by {
            assert forall|x: int, y: int| 0 <= x < ids.len() && 0 <= y < ids.len() implies (#[trigger] liveness_relation(frames)(ids[x], ids[y]) <==> (x != y && graph.classes.class_of@[x] is Some && graph.classes.class_of@[x] == graph.classes.class_of@[y] && graph.shares@[graph.classes.class_of@[x]->0 as int])) by {
                lemma_liveness_nodes(production@, tests@, *graph, x, y);
            }
            assert forall|a: DefinitionId, b: DefinitionId| #[trigger] liveness_relation(frames)(a, b) implies is_node(ids, a) && is_node(ids, b) by {
                lemma_same_source_numbered(production@, tests@, *graph, a, b);
            }
            lemma_star_correspondence(ids, graph.classes.members@, graph.classes.class_of@, graph.shares@, filter@, liveness_relation(frames), everything(), n, m);
        }
    }
    let mut scopes: Vec<RequiredScope> = Vec::new();
    while scopes.len() < node_count
        invariant
            scopes@.len() <= node_count,
            forall|n: int| 0 <= n < scopes@.len() ==> #[trigger] scopes@[n].view() is Bottom,
        decreases node_count - scopes@.len(),
    {
        scopes.push(RequiredScope::Bottom);
    }
    let mut pending: Vec<usize> = Vec::new();
    let mut e: usize = 0;
    while e < refs.len()
        invariant
            graph_of(production@, tests@, *graph),
            frames == chain(production@, tests@),
            edges == all_edges(production@, tests@),
            ids == graph.index.ids@,
            *refs == graph.all_edges,
            node_count == ids.len(),
            e <= refs@.len(),
            scopes@.len() == node_count,
            forall|i: int| 0 <= i < pending@.len() ==> #[trigger] pending@[i] < node_count,
            forall|n: int| 0 <= n < node_count ==> #[trigger] scopes@[n].view() is Bottom || pending@.contains(n as usize),
            forall|i: int| 0 <= i < e && scoped_edge(frames, #[trigger] edges[i]) ==> scope_le(requirement(frames, edges[i]), scopes@[refs@[i].to as int].view()),
            forall|other: spec_fn(DefinitionId) -> ScopeView| #[trigger] meets_requirements(frames, edges, other) ==> forall|n: int| 0 <= n < node_count ==> scope_le(#[trigger] scopes@[n].view(), other(ids[n])),
        decreases refs@.len() - e,
    {
        let edge = refs[e];
        proof {
            assert(ids[edge.from as int] == edges[e as int].from);
            assert(ids[edge.to as int] == edges[e as int].to);
        }
        if edge.from != edge.to && graph.positions[edge.to].is_some() {
            let requirement_scope = edge_requirement(production, tests, graph, e);
            let ghost before = scopes@;
            let ghost pending_before = pending@;
            proof {
                assert forall|n: int| 0 <= n < node_count implies before[n].view() is Bottom || pending_before.contains(n as usize) by {
                    assert(scopes@[n].view() is Bottom || pending@.contains(n as usize));
                }
            }
            let changed = scopes[edge.to].merge(&requirement_scope);
            proof {
                let t = edge.to as int;
                lemma_join_is_least_upper_bound(before[t].view(), requirement_scope.view(), before[t].view());
                assert forall|other: spec_fn(DefinitionId) -> ScopeView| #[trigger] meets_requirements(frames, edges, other) implies forall|n: int| 0 <= n < node_count ==> scope_le(#[trigger] scopes@[n].view(), other(ids[n])) by {
                    assert(scoped_edge(frames, edges[e as int]));
                    assert(scope_le(requirement(frames, edges[e as int]), other(edges[e as int].to)));
                    lemma_join_is_least_upper_bound(before[t].view(), requirement_scope.view(), other(ids[t]));
                    assert forall|n: int| 0 <= n < node_count implies scope_le(#[trigger] scopes@[n].view(), other(ids[n])) by {
                        if n != t {
                            assert(scopes@[n] == before[n]);
                        }
                    }
                }
                assert forall|i: int| 0 <= i < e + 1 && scoped_edge(frames, #[trigger] edges[i]) implies scope_le(requirement(frames, edges[i]), scopes@[refs@[i].to as int].view()) by {
                    if refs@[i].to as int == t && i < e {
                        lemma_le_trans(requirement(frames, edges[i]), before[t].view(), scopes@[t].view());
                    }
                }
            }
            if changed {
                pending.push(edge.to);
            }
            proof {
                assert forall|n: int| 0 <= n < node_count implies #[trigger] scopes@[n].view() is Bottom || pending@.contains(n as usize) by {
                    assert(before[n].view() is Bottom || pending_before.contains(n as usize));
                    if n == edge.to as int && changed {
                        assert(pending@[pending@.len() - 1] == edge.to);
                    } else {
                        if n == edge.to as int {
                            assert(!(requirement_scope.view() is Bottom));
                        } else {
                            assert(scopes@[n] == before[n]);
                        }
                        if !(before[n].view() is Bottom) {
                            let i = choose|i: int| 0 <= i < pending_before.len() && pending_before[i] == n as usize;
                            assert(pending@[i] == n as usize);
                        }
                    }
                }
            }
        }
        e = e + 1;
    }
    proof {
        // Every edge out of a node with a requirement starts from a pending node.
        assert forall|n: int, m: int| #[trigger] has_edge(lists_of(adjacency@), n, m) implies scope_le(scopes@[n].view(), scopes@[m].view()) || pending@.contains(n as usize) by {
            assert(0 <= n < node_count);
        }
    }
    proof {
        let adj = lists_of(adjacency@);
        assert(keeps_propagation(frames, edges, keep@));
        assert forall|n: int, m: int| #[trigger] has_edge(adj, n, m) implies kept_edge(refs@, keep@, n, m)
            || (0 <= n < ids.len() && 0 <= m < ids.len() && star_edge(liveness_relation(frames), everything(), ids[n], ids[m])) by {
            if !kept_edge(refs@, keep@, n, m) {
                assert(star_nodes(ids, graph.classes.members@, graph.shares@, filter@, n, m));
            }
        }
        assert forall|n: int, m: int| kept_edge(refs@, keep@, n, m) implies #[trigger] has_edge(adj, n, m) by {
        }
        assert forall|n: int, m: int| 0 <= n < ids.len() && 0 <= m < ids.len()
            && star_edge(liveness_relation(frames), everything(), ids[n], ids[m]) implies #[trigger] has_edge(adj, n, m) by {
            assert(star_nodes(ids, graph.classes.members@, graph.shares@, filter@, n, m));
        }
        lemma_propagation_sound(production@, tests@, *graph, keep@, adj);
    }
    while pending.len() > 0
        invariant
            graph_of(production@, tests@, *graph),
            frames == chain(production@, tests@),
            edges == all_edges(production@, tests@),
            ids == graph.index.ids@,
            *refs == graph.all_edges,
            node_count == ids.len(),
            adjacency@.len() == node_count,
            well_formed(lists_of(adjacency@)),
            scopes@.len() == node_count,
            forall|i: int| 0 <= i < pending@.len() ==> #[trigger] pending@[i] < node_count,
            forall|i: int| 0 <= i < edges.len() && scoped_edge(frames, #[trigger] edges[i]) ==> scope_le(requirement(frames, edges[i]), scopes@[refs@[i].to as int].view()),
            forall|other: spec_fn(DefinitionId) -> ScopeView| #[trigger] meets_requirements(frames, edges, other) ==> forall|n: int| 0 <= n < node_count ==> scope_le(#[trigger] scopes@[n].view(), other(ids[n])),
            forall|n: int, m: int| #[trigger] has_edge(lists_of(adjacency@), n, m) ==> scope_le(scopes@[n].view(), scopes@[m].view()) || pending@.contains(n as usize),
            forall|n: int, m: int, other: spec_fn(DefinitionId) -> ScopeView| #[trigger] has_edge(lists_of(adjacency@), n, m) && #[trigger] meets_requirements(frames, edges, other) ==> scope_le(other(ids[n]), other(ids[m])),
        decreases bottoms(scopes@), weight(scopes@), pending@.len(),
    {
        let ghost start = scopes@;
        let ghost start_pending = pending@;
        let src = pending.pop().unwrap();
        let ghost popped = pending@;
        proof {
            assert(popped =~= start_pending.drop_last());
            assert forall|x: usize| start_pending.contains(x) implies popped.contains(x) || x == src by {
                let i = choose|i: int| 0 <= i < start_pending.len() && start_pending[i] == x;
                if i < popped.len() {
                    assert(popped[i] == x);
                }
            }
        }
        let current = scopes[src].copy_scope();
        let targets = &adjacency[src];
        let ghost list = lists_of(adjacency@)[src as int];
        proof {
            assert(targets@ == list);
        }
        let ghost mut grew = false;
        let mut j: usize = 0;
        proof {
            assert forall|n: int| 0 <= n < node_count implies scope_le(start[n].view(), #[trigger] scopes@[n].view()) by {
                lemma_scope_order(start[n].view(), start[n].view(), start[n].view());
            }
        }
        while j < targets.len()
            invariant
                graph_of(production@, tests@, *graph),
                frames == chain(production@, tests@),
                edges == all_edges(production@, tests@),
                ids == graph.index.ids@,
                *refs == graph.all_edges,
                node_count == ids.len(),
                adjacency@.len() == node_count,
                well_formed(lists_of(adjacency@)),
                src < node_count,
                targets@ == list,
                list == lists_of(adjacency@)[src as int],
                j <= list.len(),
                scopes@.len() == node_count,
                start.len() == node_count,
                forall|i: int| 0 <= i < popped.len() ==> #[trigger] popped[i] < node_count,
                forall|i: int| 0 <= i < pending@.len() ==> #[trigger] pending@[i] < node_count,
                forall|x: usize| popped.contains(x) ==> #[trigger] pending@.contains(x),
                grew ==> measure_less(bottoms(scopes@), weight(scopes@), bottoms(start), weight(start)),
                !grew ==> pending@ == popped && forall|n: int| 0 <= n < node_count ==> #[trigger] scopes@[n].view() == start[n].view(),
                forall|n: int| 0 <= n < node_count ==> scope_le(start[n].view(), #[trigger] scopes@[n].view()),
                forall|n: int| 0 <= n < node_count && #[trigger] scopes@[n].view() != start[n].view() ==> pending@.contains(n as usize),
                current.view() == start[src as int].view(),
                forall|k: int| 0 <= k < j ==> scope_le(current.view(), #[trigger] scopes@[list[k] as int].view()),
                forall|other: spec_fn(DefinitionId) -> ScopeView| #[trigger] meets_requirements(frames, edges, other) ==> forall|n: int| 0 <= n < node_count ==> scope_le(#[trigger] scopes@[n].view(), other(ids[n])),
                forall|other: spec_fn(DefinitionId) -> ScopeView| #[trigger] meets_requirements(frames, edges, other) ==> scope_le(current.view(), other(ids[src as int])),
                forall|n: int, m: int, other: spec_fn(DefinitionId) -> ScopeView| #[trigger] has_edge(lists_of(adjacency@), n, m) && #[trigger] meets_requirements(frames, edges, other) ==> scope_le(other(ids[n]), other(ids[m])),
            decreases list.len() - j,
        {
            let target = targets[j];
            proof {
                assert(has_edge(lists_of(adjacency@), src as int, target as int)) by {
                    assert(lists_of(adjacency@)[src as int][j as int] == target);
                }
            }
            let ghost before = scopes@;
            let ghost before_pending = pending@;
            let ghost grew_before = grew;
            proof {
                if !grew {
                    assert forall|n: int| 0 <= n < before.len() implies #[trigger] before[n].view() == start[n].view() by {
                        assert(scopes@[n].view() == start[n].view());
                    }
                }
            }
            let changed = scopes[target].merge(&current);
            proof {
                let t = target as int;
                lemma_join_is_least_upper_bound(before[t].view(), current.view(), before[t].view());
                lemma_le_trans(start[t].view(), before[t].view(), scopes@[t].view());
                if changed {
                    lemma_join_decreases(before, t, scopes@[t], current.view());
                    assert(scopes@ == before.update(t, scopes@[t]));
                }
                assert forall|other: spec_fn(DefinitionId) -> ScopeView| #[trigger] meets_requirements(frames, edges, other) implies forall|n: int| 0 <= n < node_count ==> scope_le(#[trigger] scopes@[n].view(), other(ids[n])) by {
                    assert(scope_le(other(ids[src as int]), other(ids[t])));
                    assert(scope_le(before[t].view(), other(ids[t])));
                    lemma_le_trans(current.view(), other(ids[src as int]), other(ids[t]));
                    lemma_join_is_least_upper_bound(before[t].view(), current.view(), other(ids[t]));
                    assert forall|n: int| 0 <= n < node_count implies scope_le(#[trigger] scopes@[n].view(), other(ids[n])) by {
                        if n != t {
                            assert(scopes@[n] == before[n]);
                        }
                    }
                }
                assert forall|k: int| 0 <= k < j + 1 implies scope_le(current.view(), #[trigger] scopes@[list[k] as int].view()) by {
                    if list[k] as int == t {
                    } else if k < j {
                        assert(scopes@[list[k] as int] == before[list[k] as int]);
                    }
                }
            }
            if changed {
                pending.push(target);
                proof {
                    grew = true;
                }
            }
            proof {
                let t = target as int;
                assert forall|x: usize| popped.contains(x) implies #[trigger] pending@.contains(x) by {
                    assert(before_pending.contains(x));
                    let i = choose|i: int| 0 <= i < before_pending.len() && before_pending[i] == x;
                    assert(pending@[i] == x);
                }
                assert forall|n: int| 0 <= n < node_count && #[trigger] scopes@[n].view() != start[n].view() implies pending@.contains(n as usize) by {
                    if n == t && changed {
                        assert(pending@[pending@.len() - 1] == target);
                    } else if n == t {
                        assert(before_pending.contains(n as usize));
                        let i = choose|i: int| 0 <= i < before_pending.len() && before_pending[i] == n as usize;
                        assert(pending@[i] == n as usize);
                    } else {
                        assert(scopes@[n] == before[n]);
                        assert(before_pending.contains(n as usize));
                        let i = choose|i: int| 0 <= i < before_pending.len() && before_pending[i] == n as usize;
                        assert(pending@[i] == n as usize);
                    }
                }
                assert forall|n: int| 0 <= n < node_count implies scope_le(start[n].view(), #[trigger] scopes@[n].view()) by {
                    if n != t {
                        assert(scopes@[n] == before[n]);
                    }
                }
                if !changed {
                    assert forall|n: int| 0 <= n < node_count implies #[trigger] scopes@[n].view() == before[n].view() by {
                        if n != t {
                            assert(scopes@[n] == before[n]);
                        }
                    }
                    lemma_measure_views(scopes@, before);
                }
                if changed && grew_before {
                    lemma_measure_trans(bottoms(scopes@), weight(scopes@), bottoms(before), weight(before), bottoms(start), weight(start));
                } else if changed {
                    assert forall|n: int| 0 <= n < before.len() implies #[trigger] before[n].view() == start[n].view() by {
                    }
                    lemma_measure_views(before, start);
                }
            }
            j = j + 1;
        }
        proof {
            assert forall|n: int, m: int| #[trigger] has_edge(lists_of(adjacency@), n, m) implies scope_le(scopes@[n].view(), scopes@[m].view()) || pending@.contains(n as usize) by {
                if scopes@[n].view() != start[n].view() {
                } else if n == src as int {
                    let k = choose|k: int| 0 <= k < list.len() && #[trigger] list[k] as int == m;
                    assert(scope_le(current.view(), scopes@[list[k] as int].view()));
                } else {
                    if scope_le(start[n].view(), start[m].view()) {
                        lemma_le_trans(start[n].view(), start[m].view(), scopes@[m].view());
                    } else {
                        assert(start_pending.contains(n as usize));
                        assert(popped.contains(n as usize));
                    }
                }
            }
            assert forall|i: int| 0 <= i < edges.len() && scoped_edge(frames, #[trigger] edges[i]) implies scope_le(requirement(frames, edges[i]), scopes@[refs@[i].to as int].view()) by {
                let t = refs@[i].to as int;
                lemma_le_trans(requirement(frames, edges[i]), start[t].view(), scopes@[t].view());
            }
            if !grew {
                lemma_measure_views(scopes@, start);
                assert(pending@.len() < start_pending.len());
            }
        }
    }
    proof {
        lemma_closed_assignment_is_least(production@, tests@, *graph, keep@, lists_of(adjacency@), scopes@);
        let assignment = assignment_of(ids, scopes@);
        let least = choose|a: spec_fn(DefinitionId) -> ScopeView| least_requirements(frames, edges, a);
        assert(least_requirements(frames, edges, least));
        assert forall|n: int| 0 <= n < scopes@.len() implies #[trigger] scopes@[n].view() == required_scope(production@, tests@, graph.index.ids@[n]) by {
            lemma_least_unique(frames, edges, assignment, least, ids[n]);
            crate::nodes::lemma_node_of(ids, n);
        }
    }
    scopes
}

} // verus!
