//! Which public declarations must stay public: those that another crate names, directly
//! or through the interface of something it names.

use vstd::prelude::*;
use crate::model::{DefinitionId, DefinitionKind, Edge, EdgeKind, Fragment};
use crate::frames::{EdgeRef, numbers_edges, chain, is_defined, definition_of, fragment_at, fragment_mentions, mentions, lemma_last_definition_unique};
use crate::nodes::{is_node, node_of, distinct_ids, lemma_node_of};
use crate::equivalence::same_source;
use crate::stars::{star_edge, lemma_star_correspondence};
use crate::adjacency::{build_adjacency, kept_edge, star_nodes};
use crate::reach::{has_edge, is_root, lists_of, well_formed, reaches, reachable, walks_to, lemma_walks_correspond};
use crate::graph::{Graph, graph_of, all_edges, lemma_liveness_nodes, lemma_same_source_numbered};
use crate::fixpoint::{propagates, everything};
use crate::live::crosses_crates;

verus! {

/// Sameness of source declaration, as a relation.
pub open spec fn same_source_relation(frames: Seq<Fragment>) -> spec_fn(DefinitionId, DefinitionId) -> bool {
    |a: DefinitionId, b: DefinitionId| same_source(frames, a, b)
}

/// A step along which a visibility requirement on `a` carries to `b`: an interface,
/// re-export, or visibility edge to a defined target, or a step between definitions
/// compiled from one source declaration.
pub open spec fn interface_step(production: Seq<Fragment>, tests: Seq<Fragment>) -> spec_fn(DefinitionId, DefinitionId) -> bool {
    |a: DefinitionId, b: DefinitionId| {
        let frames = chain(production, tests);
        let edges = all_edges(production, tests);
        ||| exists|i: int| 0 <= i < edges.len() && (#[trigger] edges[i]).from == a && edges[i].to == b && propagates(edges[i].kind) && is_defined(frames, b)
        ||| star_edge(same_source_relation(frames), everything(), a, b)
    }
}

/// `id` is the target of an edge between the compilations of two crates.
pub open spec fn crossing_target(production: Seq<Fragment>, tests: Seq<Fragment>, id: DefinitionId) -> bool {
    let edges = all_edges(production, tests);
    exists|i: int| 0 <= i < edges.len() && crosses_crates(chain(production, tests), #[trigger] edges[i]) && edges[i].to == id
}

/// The targets of edges between crates.
pub open spec fn crossing_targets(production: Seq<Fragment>, tests: Seq<Fragment>) -> spec_fn(DefinitionId) -> bool {
    |id: DefinitionId| crossing_target(production, tests, id)
}

/// Another crate names `id`, directly or through the interface of what it names.
pub open spec fn externally_required(production: Seq<Fragment>, tests: Seq<Fragment>, id: DefinitionId) -> bool {
    walks_to(interface_step(production, tests), crossing_targets(production, tests), id)
}

/// Edge `i` of `edges` re-exports `to` from `from`.
pub open spec fn reexport_in(edges: Seq<Edge>, i: int, from: DefinitionId, to: DefinitionId) -> bool {
    0 <= i < edges.len() && edges[i].kind == EdgeKind::Reexport && edges[i].from == from && edges[i].to == to
}

/// Edge `i` of the analysis re-exports `to` from `from`.
pub open spec fn reexport_edge(production: Seq<Fragment>, tests: Seq<Fragment>, i: int, from: DefinitionId, to: DefinitionId) -> bool {
    reexport_in(all_edges(production, tests), i, from, to)
}

/// A kind of declaration whose re-exports the analysis can judge.
pub open spec fn analyzable_kind(kind: DefinitionKind) -> bool {
    kind == DefinitionKind::Function || kind == DefinitionKind::InherentMethod || kind == DefinitionKind::Trait
        || kind == DefinitionKind::Struct || kind == DefinitionKind::Enum || kind == DefinitionKind::Union
        || kind == DefinitionKind::TypeAlias || kind == DefinitionKind::Constant || kind == DefinitionKind::Static
}

/// The re-export `id` has targets, all of them defined declarations of analyzable kinds.
pub open spec fn analyzable_reexport(production: Seq<Fragment>, tests: Seq<Fragment>, id: DefinitionId) -> bool {
    let frames = chain(production, tests);
    &&& exists|i: int, to: DefinitionId| #[trigger] reexport_edge(production, tests, i, id, to)
    &&& forall|i: int, to: DefinitionId| #[trigger] reexport_edge(production, tests, i, id, to)
        ==> is_defined(frames, to) && analyzable_kind(definition_of(frames, to).kind)
}

/// A fragment declares `id` required to stay public.
pub open spec fn declared_required(frames: Seq<Fragment>, id: DefinitionId) -> bool {
    exists|k: int| 0 <= k < frames.len() && (#[trigger] frames[k]).required_public_roots@.contains(id)
}

/// `id` must stay public on its own account: a fragment declares it so, or it is a public
/// re-export that cannot be judged or whose target another crate needs.
pub open spec fn explicitly_required(production: Seq<Fragment>, tests: Seq<Fragment>, id: DefinitionId) -> bool {
    declared_required(chain(production, tests), id) || required_reexport(production, tests, id)
}

/// `id` is a public re-export that cannot be judged, or whose target another crate needs.
pub open spec fn required_reexport(production: Seq<Fragment>, tests: Seq<Fragment>, id: DefinitionId) -> bool {
    let frames = chain(production, tests);
    &&& is_defined(frames, id)
    &&& definition_of(frames, id).public_api
    &&& definition_of(frames, id).kind == DefinitionKind::Reexport
    &&& !analyzable_reexport(production, tests, id)
        || exists|i: int, to: DefinitionId| #[trigger] reexport_edge(production, tests, i, id, to) && externally_required(production, tests, to)
}

/// The roots of required public visibility.
pub open spec fn public_roots(production: Seq<Fragment>, tests: Seq<Fragment>) -> spec_fn(DefinitionId) -> bool {
    |id: DefinitionId| explicitly_required(production, tests, id) || crossing_target(production, tests, id)
}

/// `id` must keep its public visibility.
pub open spec fn required_public(production: Seq<Fragment>, tests: Seq<Fragment>, id: DefinitionId) -> bool {
    walks_to(interface_step(production, tests), public_roots(production, tests), id)
}

/// Adjacency lists of the interface graph.
fn interface_adjacency(production: &[Fragment], tests: &[Fragment], graph: &Graph) -> (adjacency: Vec<Vec<usize>>)
    requires
        graph_of(production@, tests@, *graph),
    ensures
        adjacency@.len() == graph.index.ids@.len(),
        well_formed(lists_of(adjacency@)),
        forall|n: int, m: int| 0 <= n < graph.index.ids@.len() && 0 <= m < graph.index.ids@.len() ==> (#[trigger] has_edge(lists_of(adjacency@), n, m)
            <==> interface_step(production@, tests@)(graph.index.ids@[n], graph.index.ids@[m])),
{
    let ghost frames = chain(production@, tests@);
    let ghost ids = graph.index.ids@;
    let ghost edges = all_edges(production@, tests@);
    let refs = &graph.all_edges;
    let mut keep: Vec<bool> = Vec::new();
    let mut e: usize = 0;
    while e < refs.len()
        invariant
            graph_of(production@, tests@, *graph),
            frames == chain(production@, tests@),
            ids == graph.index.ids@,
            edges == all_edges(production@, tests@),
            *refs == graph.all_edges,
            e <= refs@.len(),
            keep@.len() == e,
            forall|i: int| 0 <= i < e ==> #[trigger] keep@[i] == (propagates(edges[i].kind) && is_defined(frames, edges[i].to)),
        decreases refs@.len() - e,
    {
        let edge = refs[e];
        proof {
            assert(ids[edge.to as int] == edges[e as int].to);
        }
        let propagating = edge.kind == EdgeKind::Interface || edge.kind == EdgeKind::Reexport
            || edge.kind == EdgeKind::VisibilityParent || edge.kind == EdgeKind::VisibilityRequirement;
        keep.push(propagating && graph.positions[edge.to].is_some());
        e = e + 1;
    }
    let node_count = graph.index.ids.len();
    let mut enabled: Vec<bool> = Vec::new();
    while enabled.len() < graph.classes.members.len()
        invariant
            enabled@.len() <= graph.classes.members@.len(),
            forall|c: int| 0 <= c < enabled@.len() ==> #[trigger] enabled@[c],
        decreases graph.classes.members@.len() - enabled@.len(),
    {
        enabled.push(true);
    }
    let mut filter: Vec<bool> = Vec::new();
    while filter.len() < node_count
        invariant
            filter@.len() <= node_count,
            forall|n: int| 0 <= n < filter@.len() ==> #[trigger] filter@[n],
        decreases node_count - filter@.len(),
    {
        filter.push(true);
    }
    proof {
        assert forall|g: int, i: int| 0 <= g < graph.classes.members@.len() && 0 <= i < graph.classes.members@[g]@.len() implies (#[trigger] graph.classes.members@[g]@[i]) < ids.len() by {
        }
    }
    let adjacency = build_adjacency(&graph.index.ids, refs, &keep, &graph.classes.members, &enabled, &filter);
    proof {
        let relation = same_source_relation(frames);
        assert forall|x: int, y: int| 0 <= x < ids.len() && 0 <= y < ids.len() implies (#[trigger] relation(ids[x], ids[y]) <==> (x != y && graph.classes.class_of@[x] is Some && graph.classes.class_of@[x] == graph.classes.class_of@[y] && enabled@[graph.classes.class_of@[x]->0 as int])) by {
            lemma_liveness_nodes(production@, tests@, *graph, x, y);
        }
        assert forall|a: DefinitionId, b: DefinitionId| #[trigger] relation(a, b) implies is_node(ids, a) && is_node(ids, b) by {
            lemma_same_source_numbered(production@, tests@, *graph, a, b);
        }
        assert forall|n: int, m: int| 0 <= n < ids.len() && 0 <= m < ids.len() implies (#[trigger] has_edge(lists_of(adjacency@), n, m)
            <==> interface_step(production@, tests@)(ids[n], ids[m])) by {
            lemma_star_correspondence(ids, graph.classes.members@, graph.classes.class_of@, enabled@, filter@, relation, everything(), n, m);
            if kept_edge(refs@, keep@, n, m) {
                let i = choose|i: int| 0 <= i < refs@.len() && keep@[i] && #[trigger] refs@[i].from as int == n && refs@[i].to as int == m;
                assert(edges[i].from == ids[n] && edges[i].to == ids[m]);
            }
            if exists|i: int| 0 <= i < edges.len() && (#[trigger] edges[i]).from == ids[n] && edges[i].to == ids[m] && propagates(edges[i].kind) && is_defined(frames, ids[m]) {
                let i = choose|i: int| 0 <= i < edges.len() && (#[trigger] edges[i]).from == ids[n] && edges[i].to == ids[m] && propagates(edges[i].kind) && is_defined(frames, ids[m]);
                assert(ids[refs@[i].from as int] == ids[n]);
                assert(ids[refs@[i].to as int] == ids[m]);
                assert(refs@[i].from as int == n);
                assert(refs@[i].to as int == m);
                assert(kept_edge(refs@, keep@, n, m));
            }
        }
    }
    adjacency
}

/// Whether edge `e` of the graph joins the compilations of two crates.
pub(crate) fn edge_crosses(production: &[Fragment], tests: &[Fragment], graph: &Graph, e: usize) -> (crosses: bool)
    requires
        graph_of(production@, tests@, *graph),
        e < graph.all_edges@.len(),
    ensures
        crosses == crosses_crates(chain(production@, tests@), all_edges(production@, tests@)[e as int]),
{
    let ghost frames = chain(production@, tests@);
    let ghost ids = graph.index.ids@;
    let edge = graph.all_edges[e];
    proof {
        assert(ids[edge.from as int] == all_edges(production@, tests@)[e as int].from);
        assert(ids[edge.to as int] == all_edges(production@, tests@)[e as int].to);
    }
    match (graph.positions[edge.from], graph.positions[edge.to]) {
        (Some((k1, j1)), Some((k2, j2))) => {
            proof {
                lemma_last_definition_unique(frames, ids[edge.from as int], k1 as int, j1 as int);
                lemma_last_definition_unique(frames, ids[edge.to as int], k2 as int, j2 as int);
            }
            fragment_at(production, tests, k1).crate_id != fragment_at(production, tests, k2).crate_id
        },
        _ => false,
    }
}

/// Appends the targets of edges between crates.
fn push_crossing_targets(production: &[Fragment], tests: &[Fragment], graph: &Graph, roots: &mut Vec<usize>)
    requires
        graph_of(production@, tests@, *graph),
        forall|i: int| 0 <= i < old(roots)@.len() ==> #[trigger] old(roots)@[i] < graph.index.ids@.len(),
    ensures
        forall|i: int| 0 <= i < final(roots)@.len() ==> #[trigger] final(roots)@[i] < graph.index.ids@.len(),
        forall|n: int| 0 <= n < graph.index.ids@.len() ==> (#[trigger] is_root(final(roots)@, n) <==> (is_root(old(roots)@, n) || crossing_target(production@, tests@, graph.index.ids@[n]))),
{
    let ghost frames = chain(production@, tests@);
    let ghost ids = graph.index.ids@;
    let ghost edges = all_edges(production@, tests@);
    let ghost start = roots@;
    let mut e: usize = 0;
    while e < graph.all_edges.len()
        invariant
            graph_of(production@, tests@, *graph),
            frames == chain(production@, tests@),
            ids == graph.index.ids@,
            edges == all_edges(production@, tests@),
            e <= graph.all_edges@.len(),
            forall|r: int| 0 <= r < roots@.len() ==> #[trigger] roots@[r] < ids.len(),
            forall|n: int| 0 <= n < ids.len() ==> (#[trigger] is_root(roots@, n) <==> (is_root(start, n)
                || exists|i: int| 0 <= i < e && crosses_crates(frames, #[trigger] edges[i]) && edges[i].to == ids[n])),
        decreases graph.all_edges@.len() - e,
    {
        let ghost before = roots@;
        let to = graph.all_edges[e].to;
        proof {
            assert(ids[to as int] == edges[e as int].to);
        }
        if edge_crosses(production, tests, graph, e) {
            roots.push(to);
        }
        proof {
            assert forall|n: int| 0 <= n < ids.len() implies (#[trigger] is_root(roots@, n) <==> (is_root(start, n)
                || exists|i: int| 0 <= i < e + 1 && crosses_crates(frames, #[trigger] edges[i]) && edges[i].to == ids[n])) by {
                if is_root(before, n) {
                    let r = choose|r: int| 0 <= r < before.len() && #[trigger] before[r] as int == n;
                    assert(roots@[r] == before[r]);
                }
                if is_root(roots@, n) && !is_root(before, n) {
                    let r = choose|r: int| 0 <= r < roots@.len() && #[trigger] roots@[r] as int == n;
                    if r < before.len() {
                        assert(before[r] == roots@[r]);
                    } else {
                        assert(crosses_crates(frames, edges[e as int]) && edges[e as int].to == ids[n]);
                    }
                }
                if exists|i: int| 0 <= i < e + 1 && crosses_crates(frames, #[trigger] edges[i]) && edges[i].to == ids[n] {
                    let i = choose|i: int| 0 <= i < e + 1 && crosses_crates(frames, #[trigger] edges[i]) && edges[i].to == ids[n];
                    if i == e {
                        lemma_node_of(ids, n);
                        lemma_node_of(ids, to as int);
                        assert(roots@[before.len() as int] as int == n);
                    }
                }
            }
        }
        e = e + 1;
    }
    proof {
        assert forall|n: int| 0 <= n < ids.len() implies (#[trigger] is_root(roots@, n) <==> (is_root(start, n) || crossing_target(production@, tests@, ids[n]))) by {
            assert(graph.all_edges@.len() == edges.len());
        }
    }
}

/// For each node, the nodes it re-exports along the edges `refs`.
pub(crate) fn reexport_lists(production: &[Fragment], tests: &[Fragment], graph: &Graph, refs: &Vec<EdgeRef>, Ghost(edges): Ghost<Seq<Edge>>) -> (lists: Vec<Vec<usize>>)
    requires
        graph_of(production@, tests@, *graph),
        numbers_edges(graph.index.ids@, edges, refs@),
    ensures
        lists@.len() == graph.index.ids@.len(),
        well_formed(lists_of(lists@)),
        forall|n: int, m: int| 0 <= n < graph.index.ids@.len() && 0 <= m < graph.index.ids@.len() ==> (#[trigger] has_edge(lists_of(lists@), n, m)
            <==> exists|i: int| #[trigger] reexport_in(edges, i, graph.index.ids@[n], graph.index.ids@[m])),
{
    let ghost ids = graph.index.ids@;
    let node_count = graph.index.ids.len();
    let mut lists: Vec<Vec<usize>> = Vec::new();
    while lists.len() < node_count
        invariant
            lists@.len() <= node_count,
            forall|n: int| 0 <= n < lists@.len() ==> (#[trigger] lists@[n])@.len() == 0,
        decreases node_count - lists@.len(),
    {
        lists.push(Vec::new());
    }
    proof {
        assert forall|n: int, m: int| !#[trigger] has_edge(lists_of(lists@), n, m) by {
            if 0 <= n < lists@.len() {
                assert(lists_of(lists@)[n].len() == 0);
            }
        }
        index_distinct(production@, tests@, *graph);
    }
    let mut e: usize = 0;
    while e < refs.len()
        invariant
            graph_of(production@, tests@, *graph),
            distinct_ids(ids),
            ids == graph.index.ids@,
            numbers_edges(ids, edges, refs@),
            node_count == ids.len(),
            e <= refs@.len(),
            lists@.len() == node_count,
            well_formed(lists_of(lists@)),
            forall|n: int, m: int| #[trigger] has_edge(lists_of(lists@), n, m)
                <==> (0 <= n < node_count && 0 <= m < node_count && exists|i: int| 0 <= i < e && #[trigger] reexport_in(edges, i, ids[n], ids[m])),
        decreases refs@.len() - e,
    {
        let edge = refs[e];
        proof {
            assert(ids[edge.from as int] == edges[e as int].from);
            assert(ids[edge.to as int] == edges[e as int].to);
        }
        let ghost before = lists_of(lists@);
        if edge.kind == EdgeKind::Reexport {
            let ghost list = lists@[edge.from as int]@;
            lists[edge.from].push(edge.to);
            proof {
                let after = lists_of(lists@);
                assert(after[edge.from as int] == list.push(edge.to));
                assert forall|a: int, b: int| #[trigger] has_edge(after, a, b) <==> (has_edge(before, a, b) || (a == edge.from && b == edge.to)) by {
                    if a == edge.from as int {
                        if has_edge(before, a, b) {
                            let i = choose|i: int| 0 <= i < before[a].len() && #[trigger] before[a][i] as int == b;
                            assert(after[a][i] == before[a][i]);
                        }
                        if b == edge.to as int {
                            assert(after[a][list.len() as int] == edge.to);
                        }
                        if has_edge(after, a, b) {
                            let i = choose|i: int| 0 <= i < after[a].len() && #[trigger] after[a][i] as int == b;
                            if i < list.len() {
                                assert(before[a][i] == after[a][i]);
                            }
                        }
                    } else if 0 <= a < after.len() {
                        assert(after[a] == before[a]);
                    }
                }
                assert forall|a: int, q: int| 0 <= a < after.len() && 0 <= q < after[a].len() implies #[trigger] after[a][q] < after.len() by {
                    if a == edge.from as int && q == list.len() {
                    } else if a == edge.from as int {
                        assert(after[a][q] == before[a][q]);
                    } else {
                        assert(after[a] == before[a]);
                    }
                }
            }
        }
        proof {
            let after = lists_of(lists@);
            assert forall|n: int, m: int| #[trigger] has_edge(after, n, m)
                <==> (0 <= n < node_count && 0 <= m < node_count && exists|i: int| 0 <= i < e + 1 && #[trigger] reexport_in(edges, i, ids[n], ids[m])) by {
                if 0 <= n < node_count && 0 <= m < node_count && reexport_in(edges, e as int, ids[n], ids[m]) {
                    lemma_node_of(ids, n);
                    lemma_node_of(ids, m);
                    lemma_node_of(ids, edge.from as int);
                    lemma_node_of(ids, edge.to as int);
                }
                if has_edge(before, n, m) {
                    let i = choose|i: int| 0 <= i < e && #[trigger] reexport_in(edges, i, ids[n], ids[m]);
                    assert(reexport_in(edges, i, ids[n], ids[m]));
                }
                if 0 <= n < node_count && 0 <= m < node_count && exists|i: int| 0 <= i < e + 1 && #[trigger] reexport_in(edges, i, ids[n], ids[m]) {
                    let i = choose|i: int| 0 <= i < e + 1 && #[trigger] reexport_in(edges, i, ids[n], ids[m]);
                    if i < e {
                        assert(has_edge(before, n, m));
                    }
                }
            }
        }
        e = e + 1;
    }
    proof {
        assert forall|n: int, m: int| 0 <= n < ids.len() && 0 <= m < ids.len() implies (#[trigger] has_edge(lists_of(lists@), n, m)
            <==> exists|i: int| #[trigger] reexport_in(edges, i, ids[n], ids[m])) by {
            if exists|i: int| #[trigger] reexport_in(edges, i, ids[n], ids[m]) {
                let i = choose|i: int| #[trigger] reexport_in(edges, i, ids[n], ids[m]);
                assert(0 <= i < refs@.len());
            }
        }
    }
    lists
}

proof fn index_distinct(production: Seq<Fragment>, tests: Seq<Fragment>, graph: Graph)
    requires
        graph_of(production, tests, graph),
    ensures
        distinct_ids(graph.index.ids@),
{
}

/// Reachability over node numbers of the interface graph is reachability over identifiers.
proof fn lemma_interface_walks(
    production: Seq<Fragment>,
    tests: Seq<Fragment>,
    graph: Graph,
    adjacency: Seq<Seq<usize>>,
    roots: Seq<usize>,
    root: spec_fn(DefinitionId) -> bool,
)
    requires
        graph_of(production, tests, graph),
        adjacency.len() == graph.index.ids@.len(),
        well_formed(adjacency),
        forall|n: int, m: int| 0 <= n < graph.index.ids@.len() && 0 <= m < graph.index.ids@.len() ==> (#[trigger] has_edge(adjacency, n, m)
            <==> interface_step(production, tests)(graph.index.ids@[n], graph.index.ids@[m])),
        forall|i: int| 0 <= i < roots.len() ==> #[trigger] roots[i] < graph.index.ids@.len(),
        forall|n: int| 0 <= n < graph.index.ids@.len() ==> (#[trigger] is_root(roots, n) <==> root(graph.index.ids@[n])),
        forall|x: DefinitionId| #[trigger] root(x) ==> is_node(graph.index.ids@, x),
    ensures
        forall|n: int| 0 <= n < graph.index.ids@.len() ==> (reaches(adjacency, roots, n) <==> #[trigger] walks_to(interface_step(production, tests), root, graph.index.ids@[n])),
{
    let frames = chain(production, tests);
    let edges = all_edges(production, tests);
    let ids = graph.index.ids@;
    let relation = interface_step(production, tests);
    assert forall|n: int, m: int| #[trigger] has_edge(adjacency, n, m) implies 0 <= m < ids.len() by {
        let i = choose|i: int| 0 <= i < adjacency[n].len() && #[trigger] adjacency[n][i] as int == m;
    }
    assert forall|x: DefinitionId, y: DefinitionId| #[trigger] relation(x, y) implies (exists|n: int| 0 <= n < ids.len() && ids[n] == x) && (exists|m: int| 0 <= m < ids.len() && ids[m] == y) by {
        if exists|i: int| 0 <= i < edges.len() && (#[trigger] edges[i]).from == x && edges[i].to == y && propagates(edges[i].kind) && is_defined(frames, y) {
            let i = choose|i: int| 0 <= i < edges.len() && (#[trigger] edges[i]).from == x && edges[i].to == y && propagates(edges[i].kind) && is_defined(frames, y);
            assert(ids[graph.all_edges@[i].from as int] == x);
            assert(ids[graph.all_edges@[i].to as int] == y);
        } else {
            assert(same_source_relation(frames)(x, y));
            lemma_same_source_numbered(production, tests, graph, x, y);
        }
    }
    assert forall|n: int| #[trigger] is_root(roots, n) implies 0 <= n < ids.len() by {
        let k = choose|k: int| 0 <= k < roots.len() && #[trigger] roots[k] as int == n;
    }
    assert forall|x: DefinitionId| #[trigger] root(x) implies exists|n: int| 0 <= n < ids.len() && ids[n] == x by {
        assert(is_node(ids, x));
    }
    assert forall|n: int| 0 <= n < ids.len() implies (reaches(adjacency, roots, n) <==> #[trigger] walks_to(relation, root, ids[n])) by {
        lemma_walks_correspond(ids, adjacency, roots, relation, root, n);
    }
}

/// Appends the identifiers that fragments declare required to stay public.
fn push_declared_required(production: &[Fragment], tests: &[Fragment], graph: &Graph, roots: &mut Vec<usize>)
    requires
        graph_of(production@, tests@, *graph),
        forall|i: int| 0 <= i < old(roots)@.len() ==> #[trigger] old(roots)@[i] < graph.index.ids@.len(),
    ensures
        forall|i: int| 0 <= i < final(roots)@.len() ==> #[trigger] final(roots)@[i] < graph.index.ids@.len(),
        forall|n: int| 0 <= n < graph.index.ids@.len() ==> (#[trigger] is_root(final(roots)@, n) <==> (is_root(old(roots)@, n) || declared_required(chain(production@, tests@), graph.index.ids@[n]))),
{
    let ghost frames = chain(production@, tests@);
    let ghost ids = graph.index.ids@;
    let ghost start = roots@;
    proof {
        crate::frames::lemma_total_size_counts_fragments(frames);
    }
    let count = production.len() + tests.len();
    let mut k: usize = 0;
    while k < count
        invariant
            graph_of(production@, tests@, *graph),
            frames == chain(production@, tests@),
            ids == graph.index.ids@,
            count == frames.len(),
            k <= count,
            forall|r: int| 0 <= r < roots@.len() ==> #[trigger] roots@[r] < ids.len(),
            forall|n: int| 0 <= n < ids.len() ==> (#[trigger] is_root(roots@, n) <==> (is_root(start, n)
                || exists|k2: int| 0 <= k2 < k && (#[trigger] frames[k2]).required_public_roots@.contains(ids[n]))),
        decreases count - k,
    {
        let fragment = fragment_at(production, tests, k);
        let ghost before = roots@;
        proof {
            assert forall|i: int| 0 <= i < fragment.required_public_roots@.len() implies is_node(ids, #[trigger] fragment.required_public_roots@[i]) by {
                assert(fragment.required_public_roots@.contains(fragment.required_public_roots@[i]));
                assert(fragment_mentions(frames[k as int], fragment.required_public_roots@[i]));
                assert(mentions(frames, fragment.required_public_roots@[i]));
            }
        }
        crate::live::push_nodes(&fragment.required_public_roots, &graph.index, roots);
        proof {
            assert forall|n: int| 0 <= n < ids.len() implies (#[trigger] is_root(roots@, n) <==> (is_root(start, n)
                || exists|k2: int| 0 <= k2 < k + 1 && (#[trigger] frames[k2]).required_public_roots@.contains(ids[n]))) by {
                if exists|k2: int| 0 <= k2 < k + 1 && (#[trigger] frames[k2]).required_public_roots@.contains(ids[n]) {
                    let k2 = choose|k2: int| 0 <= k2 < k + 1 && (#[trigger] frames[k2]).required_public_roots@.contains(ids[n]);
                    if k2 < k {
                        assert(is_root(before, n));
                    }
                }
            }
        }
        k = k + 1;
    }
}

/// Whether the re-export at node `node` must stay public on its own account.
fn reexport_required(
    production: &[Fragment],
    tests: &[Fragment],
    graph: &Graph,
    lists: &Vec<Vec<usize>>,
    externally: &Vec<bool>,
    node: usize,
) -> (required: bool)
    requires
        graph_of(production@, tests@, *graph),
        node < graph.index.ids@.len(),
        lists@.len() == graph.index.ids@.len(),
        well_formed(lists_of(lists@)),
        forall|n: int, m: int| 0 <= n < graph.index.ids@.len() && 0 <= m < graph.index.ids@.len() ==> (#[trigger] has_edge(lists_of(lists@), n, m)
            <==> exists|i: int| #[trigger] reexport_edge(production@, tests@, i, graph.index.ids@[n], graph.index.ids@[m])),
        externally@.len() == graph.index.ids@.len(),
        forall|n: int| 0 <= n < externally@.len() ==> (#[trigger] externally@[n] <==> externally_required(production@, tests@, graph.index.ids@[n])),
    ensures
        required == required_reexport(production@, tests@, graph.index.ids@[node as int]),
{
    let ghost frames = chain(production@, tests@);
    let ghost ids = graph.index.ids@;
    let ghost id = ids[node as int];
    proof {
        index_distinct(production@, tests@, *graph);
    }
    match graph.positions[node] {
        None => false,
        Some((k, j)) => {
            proof {
                lemma_last_definition_unique(frames, id, k as int, j as int);
            }
            let definition = &fragment_at(production, tests, k).definitions[j];
            if !definition.public_api || definition.kind != DefinitionKind::Reexport {
                return false;
            }
            let targets = &lists[node];
            let ghost list = lists_of(lists@)[node as int];
            let mut analyzable = targets.len() > 0;
            let mut needed = false;
            let mut q: usize = 0;
            while q < targets.len()
                invariant
                    graph_of(production@, tests@, *graph),
                    distinct_ids(ids),
                    frames == chain(production@, tests@),
                    ids == graph.index.ids@,
                    targets@ == list,
                    forall|i: int| 0 <= i < list.len() ==> #[trigger] list[i] < ids.len(),
                    externally@.len() == ids.len(),
                    forall|n: int| 0 <= n < externally@.len() ==> (#[trigger] externally@[n] <==> externally_required(production@, tests@, ids[n])),
                    q <= list.len(),
                    analyzable == (list.len() > 0 && forall|i: int| 0 <= i < q ==> is_defined(frames, ids[#[trigger] list[i] as int])
                        && analyzable_kind(definition_of(frames, ids[list[i] as int]).kind)),
                    needed == exists|i: int| 0 <= i < q && #[trigger] externally@[list[i] as int],
                decreases list.len() - q,
            {
                let target = targets[q];
                match graph.positions[target] {
                    Some((k2, j2)) => {
                        proof {
                            lemma_last_definition_unique(frames, ids[target as int], k2 as int, j2 as int);
                        }
                        let kind = fragment_at(production, tests, k2).definitions[j2].kind;
                        let fits = match kind {
                            DefinitionKind::Function | DefinitionKind::InherentMethod | DefinitionKind::Trait
                            | DefinitionKind::Struct | DefinitionKind::Enum | DefinitionKind::Union
                            | DefinitionKind::TypeAlias | DefinitionKind::Constant | DefinitionKind::Static => true,
                            _ => false,
                        };
                        if !fits {
                            analyzable = false;
                        }
                    },
                    None => {
                        analyzable = false;
                    },
                }
                if externally[target] {
                    needed = true;
                }
                q = q + 1;
            }
            proof {
                assert(well_formed(lists_of(lists@)));
                // Each re-export edge from `id` leads to a listed node, and each listed node is the target of one.
                assert forall|i: int, to: DefinitionId| #[trigger] reexport_edge(production@, tests@, i, id, to) implies exists|p: int| 0 <= p < list.len() && ids[list[p] as int] == to by {
                    let edges = all_edges(production@, tests@);
                    let m = graph.all_edges@[i].to as int;
                    assert(ids[m] == to);
                    assert(ids[graph.all_edges@[i].from as int] == id);
                    assert(graph.all_edges@[i].from as int == node as int);
                    assert(reexport_edge(production@, tests@, i, ids[node as int], ids[m]));
                    assert(has_edge(lists_of(lists@), node as int, m));
                    let p = choose|p: int| 0 <= p < lists_of(lists@)[node as int].len() && #[trigger] lists_of(lists@)[node as int][p] as int == m;
                }
                assert forall|p: int| #![trigger list[p]] 0 <= p < list.len() implies exists|i: int| #[trigger] reexport_edge(production@, tests@, i, id, ids[list[p] as int]) by {
                    assert(has_edge(lists_of(lists@), node as int, list[p] as int));
                }
                if analyzable_reexport(production@, tests@, id) {
                    let (i, to) = choose|i: int, to: DefinitionId| #[trigger] reexport_edge(production@, tests@, i, id, to);
                    assert(list.len() > 0);
                    assert forall|p: int| 0 <= p < list.len() implies is_defined(frames, ids[#[trigger] list[p] as int]) && analyzable_kind(definition_of(frames, ids[list[p] as int]).kind) by {
                        let i2 = choose|i2: int| #[trigger] reexport_edge(production@, tests@, i2, id, ids[list[p] as int]);
                    }
                }
                if analyzable {
                    assert forall|i: int, to: DefinitionId| #[trigger] reexport_edge(production@, tests@, i, id, to) implies is_defined(frames, to) && analyzable_kind(definition_of(frames, to).kind) by {
                        let p = choose|p: int| 0 <= p < list.len() && ids[list[p] as int] == to;
                    }
                    let i0 = choose|i0: int| #[trigger] reexport_edge(production@, tests@, i0, id, ids[list[0] as int]);
                    assert(reexport_edge(production@, tests@, i0, id, ids[list[0] as int]));
                }
                if needed {
                    let p = choose|p: int| 0 <= p < list.len() && #[trigger] externally@[list[p] as int];
                    let i = choose|i: int| #[trigger] reexport_edge(production@, tests@, i, id, ids[list[p] as int]);
                    assert(reexport_edge(production@, tests@, i, id, ids[list[p] as int]) && externally_required(production@, tests@, ids[list[p] as int]));
                }
                if exists|i: int, to: DefinitionId| #[trigger] reexport_edge(production@, tests@, i, id, to) && externally_required(production@, tests@, to) {
                    let (i, to) = choose|i: int, to: DefinitionId| #[trigger] reexport_edge(production@, tests@, i, id, to) && externally_required(production@, tests@, to);
                    let p = choose|p: int| 0 <= p < list.len() && ids[list[p] as int] == to;
                    assert(externally@[list[p] as int]);
                }
            }
            !analyzable || needed
        },
    }
}

/// Computes, for each node, whether it must keep its public visibility.
pub(crate) fn required_public_visibility(production: &[Fragment], tests: &[Fragment], graph: &Graph) -> (required: Vec<bool>)
    requires
        graph_of(production@, tests@, *graph),
    ensures
        required@.len() == graph.index.ids@.len(),
        forall|n: int| 0 <= n < required@.len() ==> (#[trigger] required@[n] <==> required_public(production@, tests@, graph.index.ids@[n])),
{
    let ghost frames = chain(production@, tests@);
    let ghost ids = graph.index.ids@;
    let ghost edges = all_edges(production@, tests@);
    let adjacency = interface_adjacency(production, tests, graph);
    let mut crossing: Vec<usize> = Vec::new();
    push_crossing_targets(production, tests, graph, &mut crossing);
    proof {
        assert forall|x: DefinitionId| #[trigger] crossing_targets(production@, tests@)(x) implies is_node(ids, x) by {
            let i = choose|i: int| 0 <= i < edges.len() && crosses_crates(frames, #[trigger] edges[i]) && edges[i].to == x;
            assert(ids[graph.all_edges@[i].to as int] == x);
        }
        assert forall|n: int| 0 <= n < ids.len() implies (#[trigger] is_root(crossing@, n) <==> crossing_targets(production@, tests@)(ids[n])) by {
        }
        lemma_interface_walks(production@, tests@, *graph, lists_of(adjacency@), crossing@, crossing_targets(production@, tests@));
    }
    let externally = reachable(&adjacency, crossing);
    let lists = reexport_lists(production, tests, graph, &graph.all_edges, Ghost(edges));
    proof {
        assert forall|a: int, b: int| 0 <= a < ids.len() && 0 <= b < ids.len() implies (#[trigger] has_edge(lists_of(lists@), a, b)
            <==> exists|i: int| #[trigger] reexport_edge(production@, tests@, i, ids[a], ids[b])) by {
            if exists|i: int| #[trigger] reexport_edge(production@, tests@, i, ids[a], ids[b]) {
                let i = choose|i: int| #[trigger] reexport_edge(production@, tests@, i, ids[a], ids[b]);
                assert(reexport_in(edges, i, ids[a], ids[b]));
            }
            if exists|i: int| #[trigger] reexport_in(edges, i, ids[a], ids[b]) {
                let i = choose|i: int| #[trigger] reexport_in(edges, i, ids[a], ids[b]);
                assert(reexport_edge(production@, tests@, i, ids[a], ids[b]));
            }
        }
    }
    let mut roots: Vec<usize> = Vec::new();
    push_crossing_targets(production, tests, graph, &mut roots);
    push_declared_required(production, tests, graph, &mut roots);
    let ghost declared = roots@;
    let node_count = graph.index.ids.len();
    let mut n: usize = 0;
    while n < node_count
        invariant
            graph_of(production@, tests@, *graph),
            frames == chain(production@, tests@),
            ids == graph.index.ids@,
            node_count == ids.len(),
            lists@.len() == ids.len(),
            well_formed(lists_of(lists@)),
            forall|a: int, b: int| 0 <= a < ids.len() && 0 <= b < ids.len() ==> (#[trigger] has_edge(lists_of(lists@), a, b)
                <==> exists|i: int| #[trigger] reexport_edge(production@, tests@, i, ids[a], ids[b])),
            externally@.len() == ids.len(),
            forall|a: int| 0 <= a < externally@.len() ==> (#[trigger] externally@[a] <==> externally_required(production@, tests@, ids[a])),
            n <= node_count,
            forall|r: int| 0 <= r < roots@.len() ==> #[trigger] roots@[r] < ids.len(),
            forall|a: int| 0 <= a < ids.len() ==> (#[trigger] is_root(roots@, a) <==> (is_root(declared, a) || (a < n && required_reexport(production@, tests@, ids[a])))),
        decreases node_count - n,
    {
        let ghost before = roots@;
        if reexport_required(production, tests, graph, &lists, &externally, n) {
            roots.push(n);
        }
        proof {
            assert forall|a: int| 0 <= a < ids.len() implies (#[trigger] is_root(roots@, a) <==> (is_root(declared, a) || (a < n + 1 && required_reexport(production@, tests@, ids[a])))) by {
                if is_root(before, a) {
                    let r = choose|r: int| 0 <= r < before.len() && #[trigger] before[r] as int == a;
                    assert(roots@[r] == before[r]);
                }
                if is_root(roots@, a) && !is_root(before, a) {
                    let r = choose|r: int| 0 <= r < roots@.len() && #[trigger] roots@[r] as int == a;
                    if r < before.len() {
                        assert(before[r] == roots@[r]);
                    }
                }
                if a == n && required_reexport(production@, tests@, ids[a]) {
                    assert(roots@[before.len() as int] as int == a);
                }
            }
        }
        n = n + 1;
    }
    proof {
        assert forall|x: DefinitionId| #[trigger] public_roots(production@, tests@)(x) implies is_node(ids, x) by {
            if crossing_target(production@, tests@, x) {
                let i = choose|i: int| 0 <= i < edges.len() && crosses_crates(frames, #[trigger] edges[i]) && edges[i].to == x;
                assert(ids[graph.all_edges@[i].to as int] == x);
            } else if declared_required(frames, x) {
                let k = choose|k: int| 0 <= k < frames.len() && (#[trigger] frames[k]).required_public_roots@.contains(x);
                assert(fragment_mentions(frames[k], x));
                assert(mentions(frames, x));
            } else {
                crate::equivalence::lemma_defined_is_mentioned(frames, x);
            }
        }
        assert forall|a: int| 0 <= a < ids.len() implies (#[trigger] is_root(roots@, a) <==> public_roots(production@, tests@)(ids[a])) by {
        }
        lemma_interface_walks(production@, tests@, *graph, lists_of(adjacency@), roots@, public_roots(production@, tests@));
    }
    reachable(&adjacency, roots)
}

} // verus!
