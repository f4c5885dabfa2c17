//! Which definitions the compiled code of the tests and of the production targets reaches.

use vstd::prelude::*;
use crate::model::{DefinitionId, Edge, EdgeKind, Fragment, ProductionTargetKind};
use crate::frames::{EdgeRef, fragment_at, chain, flat_edges, is_defined, defines_at, fragment_of, numbers_edges, mentions, fragment_mentions};
use crate::nodes::{NodeIndex, is_node, node_of, distinct_ids, lemma_node_of};
use crate::equivalence::liveness_equivalent;
use crate::stars::{star_edge, lemma_star_correspondence};
use crate::adjacency::{build_adjacency, kept_edge, star_nodes};
use crate::reach::{has_edge, is_root, lists_of, well_formed, reaches, reachable, walks_to, lemma_walks_correspond};
use crate::graph::{Graph, graph_of, lemma_liveness_nodes, lemma_same_source_numbered};
use crate::fixpoint::liveness_relation;
use crate::keys::{KeyIndex, KeyView, key_index_entries, texts_of};

verus! {

/// An edge of `edges` from `a` to `b` that compiled code follows: any kind but a bare
/// visibility requirement.
pub open spec fn call_step(edges: Seq<Edge>, a: DefinitionId, b: DefinitionId) -> bool {
    exists|i: int| 0 <= i < edges.len() && (#[trigger] edges[i]).from == a && edges[i].to == b && edges[i].kind != EdgeKind::VisibilityRequirement
}

/// The definitions that the fragments of `part` define.
pub open spec fn defined_in(part: Seq<Fragment>) -> spec_fn(DefinitionId) -> bool {
    |id: DefinitionId| is_defined(part, id)
}

/// A step of liveness within the compilations `part`: an edge of `part`, or a step between
/// liveness-equivalent copies of one declaration that `part` defines.
pub open spec fn live_step(frames: Seq<Fragment>, part: Seq<Fragment>) -> spec_fn(DefinitionId, DefinitionId) -> bool {
    |a: DefinitionId, b: DefinitionId| call_step(flat_edges(part), a, b) || star_edge(liveness_relation(frames), defined_in(part), a, b)
}

/// `id` is an entry point of `part`: a root of a product-root fragment, or a conservative root.
pub open spec fn entry_root(part: Seq<Fragment>, id: DefinitionId) -> bool {
    exists|k: int| 0 <= k < part.len() && (((#[trigger] part[k]).is_product_root && part[k].roots@.contains(id)) || part[k].conservative_roots@.contains(id))
}

/// The entry points of the tests.
pub open spec fn test_roots(tests: Seq<Fragment>) -> spec_fn(DefinitionId) -> bool {
    |id: DefinitionId| entry_root(tests, id)
}

/// The compiled tests reach `id`.
pub open spec fn test_live(production: Seq<Fragment>, tests: Seq<Fragment>, id: DefinitionId) -> bool {
    walks_to(live_step(chain(production, tests), tests), test_roots(tests), id)
}

/// The tests reach `id` or a liveness-equivalent copy of it.
pub open spec fn test_reached(production: Seq<Fragment>, tests: Seq<Fragment>, id: DefinitionId) -> bool {
    test_live(production, tests, id)
        || exists|b: DefinitionId| liveness_equivalent(chain(production, tests), id, b) && #[trigger] test_live(production, tests, b)
}

/// Some production fragment is a product root.
pub open spec fn has_product_root(production: Seq<Fragment>) -> bool {
    exists|k: int| 0 <= k < production.len() && (#[trigger] production[k]).is_product_root
}

/// `target` is a production compilation target: one of a product root, or, when no fragment
/// is a product root, of any production fragment.
pub open spec fn production_target(production: Seq<Fragment>, target: Seq<char>) -> bool {
    if has_product_root(production) {
        exists|k: int| 0 <= k < production.len() && (#[trigger] production[k]).is_product_root && production[k].compilation_target@ == target
    } else {
        exists|k: int| 0 <= k < production.len() && (#[trigger] production[k]).compilation_target@ == target
    }
}

/// A fragment that is the root of a library product.
pub open spec fn library_product(fragment: Fragment) -> bool {
    fragment.is_product_root && fragment.product_root_kind == Some(ProductionTargetKind::Library)
}

/// A library product fragment defines `id`.
pub open spec fn library_definition(production: Seq<Fragment>, id: DefinitionId) -> bool {
    exists|k: int, j: int| #[trigger] defines_at(production, k, j, id) && library_product(production[k])
}

/// The kept definition of `id` belongs to production code: its fragment is a production
/// target and, when the fragment also serves non-production consumers, it is an ordinary
/// library compilation that the tests do not reach.
pub open spec fn production_caller(production: Seq<Fragment>, tests: Seq<Fragment>, id: DefinitionId) -> bool {
    let frames = chain(production, tests);
    let fragment = fragment_of(frames, id);
    &&& is_defined(frames, id)
    &&& !fragment.non_production_consumer || (!fragment.is_product_root && !fragment.test_surface && !test_reached(production, tests, id))
    &&& production_target(production, fragment.compilation_target@)
}

/// Both ends of `edge` are defined, in compilations of different crates.
pub open spec fn crosses_crates(frames: Seq<Fragment>, edge: Edge) -> bool {
    is_defined(frames, edge.from) && is_defined(frames, edge.to) && fragment_of(frames, edge.from).crate_id != fragment_of(frames, edge.to).crate_id
}

/// A library product definition that production code of another crate uses, directly or
/// through a liveness-equivalent copy.
pub open spec fn workspace_library_root(production: Seq<Fragment>, tests: Seq<Fragment>, id: DefinitionId) -> bool {
    let frames = chain(production, tests);
    let edges = flat_edges(production) + flat_edges(tests);
    &&& library_definition(production, id)
    &&& exists|i: int| 0 <= i < edges.len() && production_caller(production, tests, (#[trigger] edges[i]).from) && crosses_crates(frames, edges[i])
        && (edges[i].to == id || liveness_equivalent(frames, edges[i].to, id))
}

/// The entry points of production code.
pub open spec fn production_roots(production: Seq<Fragment>, tests: Seq<Fragment>) -> spec_fn(DefinitionId) -> bool {
    |id: DefinitionId| entry_root(production, id) || workspace_library_root(production, tests, id)
}

/// Compiled production code reaches `id`.
pub open spec fn production_live(production: Seq<Fragment>, tests: Seq<Fragment>, id: DefinitionId) -> bool {
    walks_to(live_step(chain(production, tests), production), production_roots(production, tests), id)
}

/// A selected fragment of `part`, before position `(k, j)`, defines `id`.
pub open spec fn defined_before(part: Seq<Fragment>, selected: Seq<bool>, k: int, j: int, id: DefinitionId) -> bool {
    exists|k2: int, j2: int| #[trigger] defines_at(part, k2, j2, id) && selected[k2] && (k2 < k || (k2 == k && j2 < j))
}

/// Marks the nodes that a selected fragment of `part` defines.
pub(crate) fn defined_nodes(part: &[Fragment], selected: &Vec<bool>, index: &NodeIndex) -> (marks: Vec<bool>)
    requires
        index.wf(),
        selected@.len() == part@.len(),
        forall|k: int, j: int| 0 <= k < part@.len() && 0 <= j < part@[k].definitions@.len() ==> is_node(index.ids@, (#[trigger] part@[k].definitions@[j]).id),
    ensures
        marks@.len() == index.ids@.len(),
        forall|n: int| 0 <= n < marks@.len() ==> (#[trigger] marks@[n] <==> exists|k: int, j: int| #[trigger] defines_at(part@, k, j, index.ids@[n]) && selected@[k]),
{
    let ghost ids = index.ids@;
    proof {
        index.lemma_wf_distinct();
    }
    let node_count = index.ids.len();
    let mut marks: Vec<bool> = Vec::new();
    while marks.len() < node_count
        invariant
            marks@.len() <= node_count,
            forall|n: int| 0 <= n < marks@.len() ==> !marks@[n],
        decreases node_count - marks@.len(),
    {
        marks.push(false);
    }
    let mut k: usize = 0;
    while k < part.len()
        invariant
            ids == index.ids@,
            index.wf(),
            distinct_ids(ids),
            node_count == ids.len(),
            selected@.len() == part@.len(),
            forall|k3: int, j3: int| 0 <= k3 < part@.len() && 0 <= j3 < part@[k3].definitions@.len() ==> is_node(ids, (#[trigger] part@[k3].definitions@[j3]).id),
            k <= part@.len(),
            marks@.len() == node_count,
            forall|n: int| 0 <= n < node_count ==> (#[trigger] marks@[n] <==> defined_before(part@, selected@, k as int, 0, ids[n])),
        decreases part@.len() - k,
    {
        let fragment = &part[k];
        let mut j: usize = 0;
        while j < fragment.definitions.len()
            invariant
                ids == index.ids@,
                index.wf(),
                distinct_ids(ids),
                node_count == ids.len(),
                selected@.len() == part@.len(),
                forall|k3: int, j3: int| 0 <= k3 < part@.len() && 0 <= j3 < part@[k3].definitions@.len() ==> is_node(ids, (#[trigger] part@[k3].definitions@[j3]).id),
                k < part@.len(),
                *fragment == part@[k as int],
                j <= fragment.definitions@.len(),
                marks@.len() == node_count,
                forall|n: int| 0 <= n < node_count ==> (#[trigger] marks@[n] <==> defined_before(part@, selected@, k as int, j as int, ids[n])),
            decreases fragment.definitions@.len() - j,
        {
            let id = fragment.definitions[j].id;
            let ghost before = marks@;
            if selected[k] {
                let node = index.lookup(id).unwrap();
                marks.set(node, true);
                proof {
                    assert forall|n: int| 0 <= n < node_count implies marks@[n] == (before[n] || ids[n] == id) by {
                        if ids[n] == id && n != node as int {
                            assert(ids[n] != ids[node as int]);
                        }
                    }
                }
            }
            proof {
                assert forall|n: int| 0 <= n < node_count implies marks@[n] == (before[n] || (selected@[k as int] && ids[n] == id)) by {
                }
                assert(defines_at(part@, k as int, j as int, id));
                assert forall|n: int| 0 <= n < node_count implies (#[trigger] marks@[n] <==> defined_before(part@, selected@, k as int, j + 1, ids[n])) by {
                    if defined_before(part@, selected@, k as int, j + 1, ids[n]) && !defined_before(part@, selected@, k as int, j as int, ids[n]) {
                        let (k2, j2) = choose|k2: int, j2: int| #[trigger] defines_at(part@, k2, j2, ids[n]) && selected@[k2] && (k2 < k || (k2 == k && j2 < j + 1));
                        assert(k2 == k && j2 == j);
                    }
                    if selected@[k as int] && ids[n] == id {
                        assert(defined_before(part@, selected@, k as int, j + 1, ids[n]));
                    }
                    if defined_before(part@, selected@, k as int, j as int, ids[n]) {
                        let (k2, j2) = choose|k2: int, j2: int| #[trigger] defines_at(part@, k2, j2, ids[n]) && selected@[k2] && (k2 < k || (k2 == k && j2 < j));
                        assert(defined_before(part@, selected@, k as int, j + 1, ids[n]));
                    }
                }
            }
            j = j + 1;
        }
        proof {
            assert forall|n: int| 0 <= n < node_count implies (#[trigger] marks@[n] <==> defined_before(part@, selected@, k + 1, 0, ids[n])) by {
                if defined_before(part@, selected@, k + 1, 0, ids[n]) {
                    let (k2, j2) = choose|k2: int, j2: int| #[trigger] defines_at(part@, k2, j2, ids[n]) && selected@[k2] && (k2 < k + 1 || (k2 == k + 1 && j2 < 0));
                    assert(defined_before(part@, selected@, k as int, j as int, ids[n]));
                }
                if defined_before(part@, selected@, k as int, j as int, ids[n]) {
                    let (k2, j2) = choose|k2: int, j2: int| #[trigger] defines_at(part@, k2, j2, ids[n]) && selected@[k2] && (k2 < k || (k2 == k && j2 < j));
                    assert(defined_before(part@, selected@, k + 1, 0, ids[n]));
                }
            }
        }
        k = k + 1;
    }
    proof {
        assert forall|n: int| 0 <= n < node_count implies (#[trigger] marks@[n] <==> exists|k2: int, j2: int| #[trigger] defines_at(part@, k2, j2, ids[n]) && selected@[k2]) by {
            if exists|k2: int, j2: int| #[trigger] defines_at(part@, k2, j2, ids[n]) && selected@[k2] {
                let (k2, j2) = choose|k2: int, j2: int| #[trigger] defines_at(part@, k2, j2, ids[n]) && selected@[k2];
                assert(defined_before(part@, selected@, k as int, 0, ids[n]));
            }
        }
    }
    marks
}

/// Appends the node numbers of the identifiers `list`.
pub(crate) fn push_nodes(list: &Vec<DefinitionId>, index: &NodeIndex, roots: &mut Vec<usize>)
    requires
        index.wf(),
        forall|i: int| 0 <= i < list@.len() ==> is_node(index.ids@, #[trigger] list@[i]),
        forall|i: int| 0 <= i < old(roots)@.len() ==> #[trigger] old(roots)@[i] < index.ids@.len(),
    ensures
        forall|i: int| 0 <= i < final(roots)@.len() ==> #[trigger] final(roots)@[i] < index.ids@.len(),
        forall|n: int| 0 <= n < index.ids@.len() ==> (#[trigger] is_root(final(roots)@, n) <==> (is_root(old(roots)@, n) || list@.contains(index.ids@[n]))),
{
    let ghost start = roots@;
    let ghost ids = index.ids@;
    proof {
        index.lemma_wf_distinct();
    }
    let mut i: usize = 0;
    while i < list.len()
        invariant
            ids == index.ids@,
            index.wf(),
            distinct_ids(ids),
            i <= list@.len(),
            forall|i2: int| 0 <= i2 < list@.len() ==> is_node(ids, #[trigger] list@[i2]),
            forall|r: int| 0 <= r < roots@.len() ==> #[trigger] roots@[r] < ids.len(),
            forall|n: int| 0 <= n < ids.len() ==> (#[trigger] is_root(roots@, n) <==> (is_root(start, n) || list@.take(i as int).contains(ids[n]))),
        decreases list@.len() - i,
    {
        let id = list[i];
        let node = index.lookup(id).unwrap();
        let ghost before = roots@;
        roots.push(node);
        proof {
            assert(list@.take(i + 1) =~= list@.take(i as int).push(id));
            assert forall|n: int| 0 <= n < ids.len() implies (#[trigger] is_root(roots@, n) <==> (is_root(start, n) || list@.take(i + 1).contains(ids[n]))) by {
                if is_root(before, n) {
                    let r = choose|r: int| 0 <= r < before.len() && #[trigger] before[r] as int == n;
                    assert(roots@[r] == before[r]);
                }
                if is_root(roots@, n) {
                    let r = choose|r: int| 0 <= r < roots@.len() && #[trigger] roots@[r] as int == n;
                    if r < before.len() {
                        assert(before[r] == roots@[r]);
                    } else {
                        assert(ids[n] == id);
                        assert(list@.take(i + 1)[i as int] == id);
                    }
                }
                if list@.take(i + 1).contains(ids[n]) && !list@.take(i as int).contains(ids[n]) {
                    let q = choose|q: int| 0 <= q < list@.take(i + 1).len() && #[trigger] list@.take(i + 1)[q] == ids[n];
                    if q < i {
                        assert(list@.take(i as int)[q] == ids[n]);
                    }
                    assert(ids[n] == id);
                    lemma_node_of(ids, n);
                    assert(node as int == n);
                    assert(roots@[before.len() as int] as int == n);
                }
            }
        }
        i = i + 1;
    }
    proof {
        assert(list@.take(list@.len() as int) =~= list@);
    }
}

/// The entry points of `part`, as node numbers appended to `roots`.
fn push_entry_roots(part: &[Fragment], index: &NodeIndex, roots: &mut Vec<usize>)
    requires
        index.wf(),
        forall|k: int, id: DefinitionId| 0 <= k < part@.len() && #[trigger] fragment_mentions(part@[k], id) ==> is_node(index.ids@, id),
        forall|i: int| 0 <= i < old(roots)@.len() ==> #[trigger] old(roots)@[i] < index.ids@.len(),
    ensures
        forall|i: int| 0 <= i < final(roots)@.len() ==> #[trigger] final(roots)@[i] < index.ids@.len(),
        forall|n: int| 0 <= n < index.ids@.len() ==> (#[trigger] is_root(final(roots)@, n) <==> (is_root(old(roots)@, n) || entry_root(part@, index.ids@[n]))),
{
    let ghost start = roots@;
    let ghost ids = index.ids@;
    let mut k: usize = 0;
    while k < part.len()
        invariant
            ids == index.ids@,
            index.wf(),
            k <= part@.len(),
            forall|k2: int, id: DefinitionId| 0 <= k2 < part@.len() && #[trigger] fragment_mentions(part@[k2], id) ==> is_node(ids, id),
            forall|r: int| 0 <= r < roots@.len() ==> #[trigger] roots@[r] < ids.len(),
            forall|n: int| 0 <= n < ids.len() ==> (#[trigger] is_root(roots@, n) <==> (is_root(start, n) || entry_root(part@.take(k as int), ids[n]))),
        decreases part@.len() - k,
    {
        let fragment = &part[k];
        let ghost before = roots@;
        proof {
            assert forall|i: int| 0 <= i < fragment.roots@.len() implies is_node(ids, #[trigger] fragment.roots@[i]) by {
                assert(fragment.roots@.contains(fragment.roots@[i]));
                assert(fragment_mentions(part@[k as int], fragment.roots@[i]));
            }
            assert forall|i: int| 0 <= i < fragment.conservative_roots@.len() implies is_node(ids, #[trigger] fragment.conservative_roots@[i]) by {
                assert(fragment.conservative_roots@.contains(fragment.conservative_roots@[i]));
                assert(fragment_mentions(part@[k as int], fragment.conservative_roots@[i]));
            }
        }
        if fragment.is_product_root {
            push_nodes(&fragment.roots, index, roots);
        }
        let ghost middle = roots@;
        push_nodes(&fragment.conservative_roots, index, roots);
        proof {
            assert(part@.take(k + 1) =~= part@.take(k as int).push(part@[k as int]));
            assert forall|n: int| 0 <= n < ids.len() implies (#[trigger] is_root(roots@, n) <==> (is_root(start, n) || entry_root(part@.take(k + 1), ids[n]))) by {
                let id = ids[n];
                let prefix = part@.take(k as int);
                let longer = part@.take(k + 1);
                if entry_root(prefix, id) {
                    let k2 = choose|k2: int| 0 <= k2 < prefix.len() && (((#[trigger] prefix[k2]).is_product_root && prefix[k2].roots@.contains(id)) || prefix[k2].conservative_roots@.contains(id));
                    assert(longer[k2] == prefix[k2]);
                }
                if entry_root(longer, id) {
                    let k2 = choose|k2: int| 0 <= k2 < longer.len() && (((#[trigger] longer[k2]).is_product_root && longer[k2].roots@.contains(id)) || longer[k2].conservative_roots@.contains(id));
                    if k2 < k {
                        assert(prefix[k2] == longer[k2]);
                    }
                }
                assert(longer[k as int] == *fragment);
            }
        }
        k = k + 1;
    }
    proof {
        assert(part@.take(part@.len() as int) =~= part@);
    }
}

/// Adjacency lists for liveness within the compilations `part`: the edges of `part` that
/// compiled code follows, and stars over the liveness-equivalent copies that `part` defines.
pub(crate) fn live_adjacency(
    production: &[Fragment],
    tests: &[Fragment],
    graph: &Graph,
    part_refs: &Vec<EdgeRef>,
    defined: &Vec<bool>,
    Ghost(part): Ghost<Seq<Fragment>>,
) -> (adjacency: Vec<Vec<usize>>)
    requires
        graph_of(production@, tests@, *graph),
        numbers_edges(graph.index.ids@, flat_edges(part), part_refs@),
        defined@.len() == graph.index.ids@.len(),
        forall|n: int| 0 <= n < defined@.len() ==> #[trigger] defined@[n] == is_defined(part, graph.index.ids@[n]),
    ensures
        adjacency@.len() == graph.index.ids@.len(),
        well_formed(lists_of(adjacency@)),
        forall|n: int, m: int| 0 <= n < graph.index.ids@.len() && 0 <= m < graph.index.ids@.len() ==> (#[trigger] has_edge(lists_of(adjacency@), n, m)
            <==> live_step(chain(production@, tests@), part)(graph.index.ids@[n], graph.index.ids@[m])),
{
    let ghost frames = chain(production@, tests@);
    let ghost ids = graph.index.ids@;
    let ghost edges = flat_edges(part);
    let mut keep: Vec<bool> = Vec::new();
    let mut e: usize = 0;
    while e < part_refs.len()
        invariant
            e <= part_refs@.len(),
            keep@.len() == e,
            forall|i: int| 0 <= i < e ==> #[trigger] keep@[i] == (part_refs@[i].kind != EdgeKind::VisibilityRequirement),
        decreases part_refs@.len() - e,
    {
        keep.push(part_refs[e].kind != EdgeKind::VisibilityRequirement);
        e = e + 1;
    }
    proof {
        assert forall|g: int, i: int| 0 <= g < graph.classes.members@.len() && 0 <= i < graph.classes.members@[g]@.len() implies (#[trigger] graph.classes.members@[g]@[i]) < ids.len() by {
        }
    }
    let adjacency = build_adjacency(&graph.index.ids, part_refs, &keep, &graph.classes.members, &graph.shares, defined);
    proof {
        assert forall|x: int, y: int| 0 <= x < ids.len() && 0 <= y < ids.len() implies (#[trigger] liveness_relation(frames)(ids[x], ids[y]) <==> (x != y && graph.classes.class_of@[x] is Some && graph.classes.class_of@[x] == graph.classes.class_of@[y] && graph.shares@[graph.classes.class_of@[x]->0 as int])) by {
            lemma_liveness_nodes(production@, tests@, *graph, x, y);
        }
        assert forall|a: DefinitionId, b: DefinitionId| #[trigger] liveness_relation(frames)(a, b) implies is_node(ids, a) && is_node(ids, b) by {
            lemma_same_source_numbered(production@, tests@, *graph, a, b);
        }
        assert forall|n: int, m: int| 0 <= n < ids.len() && 0 <= m < ids.len() implies (#[trigger] has_edge(lists_of(adjacency@), n, m)
            <==> live_step(frames, part)(ids[n], ids[m])) by {
            lemma_star_correspondence(ids, graph.classes.members@, graph.classes.class_of@, graph.shares@, defined@, liveness_relation(frames), defined_in(part), n, m);
            if kept_edge(part_refs@, keep@, n, m) {
                let i = choose|i: int| 0 <= i < part_refs@.len() && keep@[i] && #[trigger] part_refs@[i].from as int == n && part_refs@[i].to as int == m;
                assert(edges[i].from == ids[n] && edges[i].to == ids[m]);
                assert(call_step(edges, ids[n], ids[m]));
            }
            if call_step(edges, ids[n], ids[m]) {
                let i = choose|i: int| 0 <= i < edges.len() && (#[trigger] edges[i]).from == ids[n] && edges[i].to == ids[m] && edges[i].kind != EdgeKind::VisibilityRequirement;
                lemma_node_of(ids, n);
                lemma_node_of(ids, m);
                assert(ids[part_refs@[i].from as int] == ids[n]);
                assert(ids[part_refs@[i].to as int] == ids[m]);
                assert(part_refs@[i].from as int == n);
                assert(part_refs@[i].to as int == m);
                assert(kept_edge(part_refs@, keep@, n, m));
            }
        }
    }
    adjacency
}

/// Reachability over the node numbers of a liveness graph is liveness over identifiers.
proof fn lemma_live_walks(
    production: Seq<Fragment>,
    tests: Seq<Fragment>,
    graph: Graph,
    part: Seq<Fragment>,
    adjacency: Seq<Seq<usize>>,
    roots: Seq<usize>,
    root: spec_fn(DefinitionId) -> bool,
)
    requires
        graph_of(production, tests, graph),
        forall|x: DefinitionId, y: DefinitionId| #[trigger] call_step(flat_edges(part), x, y) ==> is_node(graph.index.ids@, x) && is_node(graph.index.ids@, y),
        adjacency.len() == graph.index.ids@.len(),
        well_formed(adjacency),
        forall|n: int, m: int| 0 <= n < graph.index.ids@.len() && 0 <= m < graph.index.ids@.len() ==> (#[trigger] has_edge(adjacency, n, m)
            <==> live_step(chain(production, tests), part)(graph.index.ids@[n], graph.index.ids@[m])),
        forall|i: int| 0 <= i < roots.len() ==> #[trigger] roots[i] < graph.index.ids@.len(),
        forall|n: int| 0 <= n < graph.index.ids@.len() ==> (#[trigger] is_root(roots, n) <==> root(graph.index.ids@[n])),
        forall|x: DefinitionId| #[trigger] root(x) ==> is_node(graph.index.ids@, x),
    ensures
        forall|n: int| 0 <= n < graph.index.ids@.len() ==> (reaches(adjacency, roots, n) <==> #[trigger] walks_to(live_step(chain(production, tests), part), root, graph.index.ids@[n])),
{
    let frames = chain(production, tests);
    let ids = graph.index.ids@;
    let relation = live_step(frames, part);
    assert forall|n: int, m: int| #[trigger] has_edge(adjacency, n, m) implies 0 <= m < ids.len() by {
        let i = choose|i: int| 0 <= i < adjacency[n].len() && #[trigger] adjacency[n][i] as int == m;
    }
    assert forall|x: DefinitionId, y: DefinitionId| #[trigger] relation(x, y) implies (exists|n: int| 0 <= n < ids.len() && ids[n] == x) && (exists|m: int| 0 <= m < ids.len() && ids[m] == y) by {
        if !call_step(flat_edges(part), x, y) {
            assert(liveness_relation(frames)(x, y));
            lemma_same_source_numbered(production, tests, graph, x, y);
        }
    }
    assert forall|n: int| #[trigger] is_root(roots, n) implies 0 <= n < ids.len() by {
        let k = choose|k: int| 0 <= k < roots.len() && #[trigger] roots[k] as int == n;
    }
    assert forall|x: DefinitionId| #[trigger] root(x) implies exists|n: int| 0 <= n < ids.len() && ids[n] == x by {
        assert(is_node(ids, x));
    }
    assert forall|n: int| 0 <= n < ids.len() implies (reaches(adjacency, roots, n) <==> #[trigger] walks_to(relation, root, ids[n])) by {
        lemma_walks_correspond(ids, adjacency, roots, relation, root, n);
    }
}

/// The calls of the edges of `part` join numbered identifiers.
proof fn lemma_part_edges_numbered(ids: Seq<DefinitionId>, part: Seq<Fragment>, refs: Seq<EdgeRef>)
    requires
        numbers_edges(ids, flat_edges(part), refs),
    ensures
        forall|x: DefinitionId, y: DefinitionId| #[trigger] call_step(flat_edges(part), x, y) ==> is_node(ids, x) && is_node(ids, y),
{
    let edges = flat_edges(part);
    assert forall|x: DefinitionId, y: DefinitionId| #[trigger] call_step(edges, x, y) implies is_node(ids, x) && is_node(ids, y) by {
        let i = choose|i: int| 0 <= i < edges.len() && (#[trigger] edges[i]).from == x && edges[i].to == y && edges[i].kind != EdgeKind::VisibilityRequirement;
        assert(ids[refs[i].from as int] == x);
        assert(ids[refs[i].to as int] == y);
    }
}

/// Every identifier that a fragment of the analysis mentions is numbered.
pub(crate) proof fn lemma_parts_mentioned(production: Seq<Fragment>, tests: Seq<Fragment>, graph: Graph)
    requires
        graph_of(production, tests, graph),
    ensures
        forall|k: int, id: DefinitionId| 0 <= k < production.len() && #[trigger] fragment_mentions(production[k], id) ==> is_node(graph.index.ids@, id),
        forall|k: int, id: DefinitionId| 0 <= k < tests.len() && #[trigger] fragment_mentions(tests[k], id) ==> is_node(graph.index.ids@, id),
        forall|k: int, j: int| 0 <= k < production.len() && 0 <= j < production[k].definitions@.len() ==> is_node(graph.index.ids@, (#[trigger] production[k].definitions@[j]).id),
        forall|k: int, j: int| 0 <= k < tests.len() && 0 <= j < tests[k].definitions@.len() ==> is_node(graph.index.ids@, (#[trigger] tests[k].definitions@[j]).id),
{
    let frames = chain(production, tests);
    assert forall|k: int, id: DefinitionId| 0 <= k < production.len() && #[trigger] fragment_mentions(production[k], id) implies is_node(graph.index.ids@, id) by {
        assert(frames[k] == production[k]);
        assert(mentions(frames, id));
    }
    assert forall|k: int, id: DefinitionId| 0 <= k < tests.len() && #[trigger] fragment_mentions(tests[k], id) implies is_node(graph.index.ids@, id) by {
        assert(frames[production.len() + k] == tests[k]);
        assert(mentions(frames, id));
    }
    assert forall|k: int, j: int| 0 <= k < production.len() && 0 <= j < production[k].definitions@.len() implies is_node(graph.index.ids@, (#[trigger] production[k].definitions@[j]).id) by {
        assert(fragment_mentions(production[k], production[k].definitions@[j].id));
    }
    assert forall|k: int, j: int| 0 <= k < tests.len() && 0 <= j < tests[k].definitions@.len() implies is_node(graph.index.ids@, (#[trigger] tests[k].definitions@[j]).id) by {
        assert(fragment_mentions(tests[k], tests[k].definitions@[j].id));
    }
}

/// A selection of every fragment of a part.
fn select_all(count: usize) -> (selected: Vec<bool>)
    ensures
        selected@.len() == count,
        forall|k: int| 0 <= k < count ==> #[trigger] selected@[k],
{
    let mut selected: Vec<bool> = Vec::new();
    while selected.len() < count
        invariant
            selected@.len() <= count,
            forall|k: int| 0 <= k < selected@.len() ==> #[trigger] selected@[k],
        decreases count - selected@.len(),
    {
        selected.push(true);
    }
    selected
}

/// Computes, for each node, whether the compiled tests reach it.
pub(crate) fn test_liveness(production: &[Fragment], tests: &[Fragment], graph: &Graph) -> (live: Vec<bool>)
    requires
        graph_of(production@, tests@, *graph),
    ensures
        live@.len() == graph.index.ids@.len(),
        forall|n: int| 0 <= n < live@.len() ==> (#[trigger] live@[n] <==> test_live(production@, tests@, graph.index.ids@[n])),
{
    let ghost ids = graph.index.ids@;
    proof {
        lemma_parts_mentioned(production@, tests@, *graph);
    }
    let all = select_all(tests.len());
    let defined = defined_nodes(tests, &all, &graph.index);
    proof {
        assert forall|n: int| 0 <= n < defined@.len() implies #[trigger] defined@[n] == is_defined(tests@, ids[n]) by {
            if is_defined(tests@, ids[n]) {
                let (k, j) = choose|k: int, j: int| #[trigger] defines_at(tests@, k, j, ids[n]);
                assert(all@[k]);
            }
        }
    }
    let adjacency = live_adjacency(production, tests, graph, &graph.test_edges, &defined, Ghost(tests@));
    let mut roots: Vec<usize> = Vec::new();
    push_entry_roots(tests, &graph.index, &mut roots);
    proof {
        assert forall|n: int| 0 <= n < ids.len() implies !is_root(Seq::<usize>::empty(), n) by {
        }
        assert forall|x: DefinitionId| #[trigger] test_roots(tests@)(x) implies is_node(ids, x) by {
            let k = choose|k: int| 0 <= k < tests@.len() && (((#[trigger] tests@[k]).is_product_root && tests@[k].roots@.contains(x)) || tests@[k].conservative_roots@.contains(x));
            assert(fragment_mentions(tests@[k], x));
        }
        lemma_part_edges_numbered(ids, tests@, graph.test_edges@);
        lemma_live_walks(production@, tests@, *graph, tests@, lists_of(adjacency@), roots@, test_roots(tests@));
    }
    let live = reachable(&adjacency, roots);
    live
}

/// The lookup key of a compilation target.
pub open spec fn target_key(target: Seq<char>) -> KeyView {
    (seq![target], Seq::<u64>::empty())
}

fn target_parts(target: &String) -> (parts: (Vec<String>, Vec<u64>))
    ensures
        (texts_of(parts.0@), parts.1@) == target_key(target@),
{
    let texts: Vec<String> = vec![target.clone()];
    let numbers: Vec<u64> = Vec::new();
    proof {
        assert(texts_of(texts@) =~= seq![target@]);
        assert(numbers@ =~= Seq::<u64>::empty());
    }
    (texts, numbers)
}

/// The production compilation targets, as a table keyed by target.
pub(crate) fn production_targets(production: &[Fragment]) -> (targets: KeyIndex)
    ensures
        forall|target: Seq<char>| #[trigger] key_index_entries(targets).contains_key(target_key(target)) <==> production_target(production@, target),
{
    let mut any_root = false;
    let mut k: usize = 0;
    while k < production.len()
        invariant
            k <= production@.len(),
            any_root <==> exists|k2: int| 0 <= k2 < k && (#[trigger] production@[k2]).is_product_root,
        decreases production@.len() - k,
    {
        if production[k].is_product_root {
            any_root = true;
        }
        k = k + 1;
    }
    let mut targets = KeyIndex::new();
    let mut k: usize = 0;
    while k < production.len()
        invariant
            k <= production@.len(),
            any_root == has_product_root(production@),
            forall|target: Seq<char>| #[trigger] key_index_entries(targets).contains_key(target_key(target))
                <==> exists|k2: int| 0 <= k2 < k && (!any_root || (#[trigger] production@[k2]).is_product_root) && production@[k2].compilation_target@ == target,
        decreases production@.len() - k,
    {
        let fragment = &production[k];
        let ghost before = key_index_entries(targets);
        if !any_root || fragment.is_product_root {
            let (texts, numbers) = target_parts(&fragment.compilation_target);
            targets.insert(texts, numbers, 0);
        }
        proof {
            assert forall|target: Seq<char>| #[trigger] key_index_entries(targets).contains_key(target_key(target))
                <==> exists|k2: int| 0 <= k2 < k + 1 && (!any_root || (#[trigger] production@[k2]).is_product_root) && production@[k2].compilation_target@ == target by {
                if key_index_entries(targets).contains_key(target_key(target)) && !before.contains_key(target_key(target)) {
                    assert(target_key(target) == target_key(fragment.compilation_target@));
                    assert(target_key(target).0[0] == target);
                    assert(target_key(fragment.compilation_target@).0[0] == fragment.compilation_target@);
                    assert(production@[k as int] == *fragment);
                }
                if exists|k2: int| 0 <= k2 < k + 1 && (!any_root || (#[trigger] production@[k2]).is_product_root) && production@[k2].compilation_target@ == target {
                    let k2 = choose|k2: int| 0 <= k2 < k + 1 && (!any_root || (#[trigger] production@[k2]).is_product_root) && production@[k2].compilation_target@ == target;
                    if k2 == k {
                        assert(production@[k as int] == *fragment);
                    }
                }
            }
        }
        k = k + 1;
    }
    targets
}

/// Whether `target` is one of the production targets of `targets`.
pub(crate) fn is_production_target(targets: &KeyIndex, target: &String) -> (found: bool)
    ensures
        found == key_index_entries(*targets).contains_key(target_key(target@)),
{
    let (texts, numbers) = target_parts(target);
    targets.get(&texts, &numbers).is_some()
}

/// Whether the tests reach node `node` or a liveness-equivalent copy of it.
fn reached_by_tests(production: &[Fragment], tests: &[Fragment], graph: &Graph, tests_live: &Vec<bool>, node: usize) -> (reached: bool)
    requires
        graph_of(production@, tests@, *graph),
        tests_live@.len() == graph.index.ids@.len(),
        forall|n: int| 0 <= n < tests_live@.len() ==> (#[trigger] tests_live@[n] <==> test_live(production@, tests@, graph.index.ids@[n])),
        node < graph.index.ids@.len(),
    ensures
        reached == test_reached(production@, tests@, graph.index.ids@[node as int]),
{
    let ghost frames = chain(production@, tests@);
    let ghost ids = graph.index.ids@;
    if tests_live[node] {
        return true;
    }
    let mut found = false;
    match graph.classes.class_of[node] {
        Some(c) => {
            if graph.shares[c] {
                let members = &graph.classes.members[c];
                let mut i: usize = 0;
                while i < members.len()
                    invariant
                        graph_of(production@, tests@, *graph),
                        frames == chain(production@, tests@),
                        ids == graph.index.ids@,
                        tests_live@.len() == ids.len(),
                        forall|n: int| 0 <= n < tests_live@.len() ==> (#[trigger] tests_live@[n] <==> test_live(production@, tests@, ids[n])),
                        node < ids.len(),
                        graph.classes.class_of@[node as int] == Some(c),
                        c < graph.classes.members@.len(),
                        *members == graph.classes.members@[c as int],
                        i <= members@.len(),
                        found <==> exists|q: int| 0 <= q < i && members@[q] != node && #[trigger] tests_live@[members@[q] as int],
                    decreases members@.len() - i,
                {
                    let m = members[i];
                    if m != node && tests_live[m] {
                        found = true;
                    }
                    i = i + 1;
                }
                proof {
                    if found {
                        let q = choose|q: int| 0 <= q < members@.len() && members@[q] != node && #[trigger] tests_live@[members@[q] as int];
                        let m = members@[q] as int;
                        assert(graph.classes.class_of@[m] == Some(c));
                        lemma_liveness_nodes(production@, tests@, *graph, node as int, m);
                        assert(liveness_equivalent(frames, ids[node as int], ids[m]));
                        assert(test_live(production@, tests@, ids[m]));
                    } else {
                        assert forall|b: DefinitionId| liveness_equivalent(frames, ids[node as int], b) implies !#[trigger] test_live(production@, tests@, b) by {
                            lemma_same_source_numbered(production@, tests@, *graph, ids[node as int], b);
                            let m = node_of(ids, b);
                            lemma_liveness_nodes(production@, tests@, *graph, node as int, m);
                            assert(graph.classes.members@[c as int]@.contains(m as usize));
                            let q = choose|q: int| 0 <= q < members@.len() && members@[q] == m as usize;
                            assert(!tests_live@[members@[q] as int]);
                        }
                    }
                }
            } else {
                proof {
                    assert forall|b: DefinitionId| liveness_equivalent(frames, ids[node as int], b) implies !#[trigger] test_live(production@, tests@, b) by {
                        lemma_same_source_numbered(production@, tests@, *graph, ids[node as int], b);
                        let m = node_of(ids, b);
                        lemma_liveness_nodes(production@, tests@, *graph, node as int, m);
                    }
                }
            }
        },
        None => {
            proof {
                assert forall|b: DefinitionId| liveness_equivalent(frames, ids[node as int], b) implies !#[trigger] test_live(production@, tests@, b) by {
                    lemma_same_source_numbered(production@, tests@, *graph, ids[node as int], b);
                    let m = node_of(ids, b);
                    lemma_liveness_nodes(production@, tests@, *graph, node as int, m);
                }
            }
        },
    }
    found
}

/// A library definition that some production edge before edge `e` uses across crates,
/// directly or through a liveness-equivalent copy.
pub open spec fn library_root_before(production: Seq<Fragment>, tests: Seq<Fragment>, e: int, id: DefinitionId) -> bool {
    let frames = chain(production, tests);
    let edges = flat_edges(production) + flat_edges(tests);
    &&& library_definition(production, id)
    &&& exists|i: int| 0 <= i < e && production_caller(production, tests, (#[trigger] edges[i]).from) && crosses_crates(frames, edges[i])
        && (edges[i].to == id || liveness_equivalent(frames, edges[i].to, id))
}

/// Appends `to` and the members of its liveness group that `library` marks.
fn push_library_targets(graph: &Graph, library: &Vec<bool>, to: usize, roots: &mut Vec<usize>)
    requires
        to < graph.index.ids@.len(),
        library@.len() == graph.index.ids@.len(),
        graph.classes.class_of@.len() == graph.index.ids@.len(),
        graph.shares@.len() == graph.classes.members@.len(),
        forall|n: int| 0 <= n < graph.index.ids@.len() && #[trigger] graph.classes.class_of@[n] is Some ==> {
            &&& graph.classes.class_of@[n]->0 < graph.classes.members@.len()
            &&& graph.classes.members@[graph.classes.class_of@[n]->0 as int]@.contains(n as usize)
        },
        forall|c: int, i: int| 0 <= c < graph.classes.members@.len() && 0 <= i < graph.classes.members@[c]@.len() ==> {
            &&& (#[trigger] graph.classes.members@[c]@[i]) < graph.index.ids@.len()
            &&& graph.classes.class_of@[graph.classes.members@[c]@[i] as int] == Some(c as usize)
        },
        forall|i: int| 0 <= i < old(roots)@.len() ==> #[trigger] old(roots)@[i] < graph.index.ids@.len(),
    ensures
        forall|i: int| 0 <= i < final(roots)@.len() ==> #[trigger] final(roots)@[i] < graph.index.ids@.len(),
        forall|n: int| 0 <= n < graph.index.ids@.len() ==> (#[trigger] is_root(final(roots)@, n) <==> (is_root(old(roots)@, n) || (library@[n] && (n == to
            || (n != to && graph.classes.class_of@[to as int] is Some && graph.classes.class_of@[to as int] == graph.classes.class_of@[n]
                && graph.shares@[graph.classes.class_of@[to as int]->0 as int]))))),
{
    let ghost start = roots@;
    let count = graph.index.ids.len();
    let ghost len = count as int;
    if library[to] {
        roots.push(to);
    }
    let ghost middle = roots@;
    proof {
        assert forall|n: int| 0 <= n < len implies (#[trigger] is_root(middle, n) <==> (is_root(start, n) || (library@[n] && n == to))) by {
            if is_root(start, n) {
                let r = choose|r: int| 0 <= r < start.len() && #[trigger] start[r] as int == n;
                assert(middle[r] == start[r]);
            }
            if is_root(middle, n) && !is_root(start, n) {
                let r = choose|r: int| 0 <= r < middle.len() && #[trigger] middle[r] as int == n;
                if r < start.len() {
                    assert(start[r] == middle[r]);
                }
            }
            if library@[n] && n == to {
                assert(middle[start.len() as int] as int == n);
            }
        }
    }
    match graph.classes.class_of[to] {
        Some(c) => {
            if graph.shares[c] {
                let members = &graph.classes.members[c];
                let mut i: usize = 0;
                while i < members.len()
                    invariant
                        c < graph.classes.members@.len(),
                        *members == graph.classes.members@[c as int],
                        forall|q: int| 0 <= q < members@.len() ==> (#[trigger] members@[q]) < len,
                        library@.len() == len,
                        len == count,
                        i <= members@.len(),
                        forall|r: int| 0 <= r < roots@.len() ==> #[trigger] roots@[r] < len,
                        forall|n: int| 0 <= n < len ==> (#[trigger] is_root(roots@, n) <==> (is_root(middle, n) || (library@[n] && members@.take(i as int).contains(n as usize)))),
                    decreases members@.len() - i,
                {
                    let m = members[i];
                    let ghost before = roots@;
                    if library[m] {
                        roots.push(m);
                    }
                    proof {
                        assert(members@.take(i + 1) =~= members@.take(i as int).push(m));
                        assert forall|n: int| 0 <= n < len implies (#[trigger] is_root(roots@, n) <==> (is_root(middle, n) || (library@[n] && members@.take(i + 1).contains(n as usize)))) by {
                            if is_root(before, n) {
                                let r = choose|r: int| 0 <= r < before.len() && #[trigger] before[r] as int == n;
                                assert(roots@[r] == before[r]);
                            }
                            if is_root(roots@, n) && !is_root(before, n) {
                                let r = choose|r: int| 0 <= r < roots@.len() && #[trigger] roots@[r] as int == n;
                                if r < before.len() {
                                    assert(before[r] == roots@[r]);
                                } else {
                                    assert(members@.take(i + 1)[i as int] == m);
                                }
                            }
                            if library@[n] && members@.take(i + 1).contains(n as usize) && !members@.take(i as int).contains(n as usize) {
                                let q = choose|q: int| 0 <= q < members@.take(i + 1).len() && #[trigger] members@.take(i + 1)[q] == n as usize;
                                if q < i {
                                    assert(members@.take(i as int)[q] == n as usize);
                                }
                                assert(q == i);
                                assert(members@.take(i + 1)[i as int] == members@[i as int]);
                                assert(m as int == n);
                                assert(roots@[before.len() as int] as int == n);
                            }
                        }
                    }
                    i = i + 1;
                }
                proof {
                    assert(members@.take(members@.len() as int) =~= members@);
                    assert forall|n: int| 0 <= n < len implies (members@.contains(n as usize) <==> graph.classes.class_of@[n] == Some(c)) by {
                        if members@.contains(n as usize) {
                            let q = choose|q: int| 0 <= q < members@.len() && members@[q] == n as usize;
                            assert(graph.classes.members@[c as int]@[q] == members@[q]);
                            assert(graph.classes.class_of@[graph.classes.members@[c as int]@[q] as int] == Some(c));
                            assert(members@[q] as int == n);
                        }
                        if graph.classes.class_of@[n] == Some(c) {
                            assert(graph.classes.class_of@[n] is Some);
                            assert(graph.classes.members@[c as int]@.contains(n as usize));
                        }
                    }
                    assert(members@.contains(to));
                }
            }
        },
        None => {},
    }
}

/// Appends the workspace library roots: library definitions that production code of
/// another crate uses.
fn push_library_roots(
    production: &[Fragment],
    tests: &[Fragment],
    graph: &Graph,
    tests_live: &Vec<bool>,
    targets: &KeyIndex,
    library: &Vec<bool>,
    roots: &mut Vec<usize>,
)
    requires
        graph_of(production@, tests@, *graph),
        tests_live@.len() == graph.index.ids@.len(),
        forall|n: int| 0 <= n < tests_live@.len() ==> (#[trigger] tests_live@[n] <==> test_live(production@, tests@, graph.index.ids@[n])),
        forall|target: Seq<char>| #[trigger] key_index_entries(*targets).contains_key(target_key(target)) <==> production_target(production@, target),
        library@.len() == graph.index.ids@.len(),
        forall|n: int| 0 <= n < library@.len() ==> (#[trigger] library@[n] <==> library_definition(production@, graph.index.ids@[n])),
        forall|i: int| 0 <= i < old(roots)@.len() ==> #[trigger] old(roots)@[i] < graph.index.ids@.len(),
    ensures
        forall|i: int| 0 <= i < final(roots)@.len() ==> #[trigger] final(roots)@[i] < graph.index.ids@.len(),
        forall|n: int| 0 <= n < graph.index.ids@.len() ==> (#[trigger] is_root(final(roots)@, n) <==> (is_root(old(roots)@, n) || workspace_library_root(production@, tests@, graph.index.ids@[n]))),
{
    let ghost frames = chain(production@, tests@);
    let ghost edges = flat_edges(production@) + flat_edges(tests@);
    let ghost ids = graph.index.ids@;
    let ghost start = roots@;
    let refs = &graph.all_edges;
    let mut e: usize = 0;
    while e < refs.len()
        invariant
            graph_of(production@, tests@, *graph),
            frames == chain(production@, tests@),
            edges == flat_edges(production@) + flat_edges(tests@),
            ids == graph.index.ids@,
            *refs == graph.all_edges,
            tests_live@.len() == ids.len(),
            forall|n: int| 0 <= n < tests_live@.len() ==> (#[trigger] tests_live@[n] <==> test_live(production@, tests@, ids[n])),
            forall|target: Seq<char>| #[trigger] key_index_entries(*targets).contains_key(target_key(target)) <==> production_target(production@, target),
            library@.len() == ids.len(),
            forall|n: int| 0 <= n < library@.len() ==> (#[trigger] library@[n] <==> library_definition(production@, ids[n])),
            e <= refs@.len(),
            forall|r: int| 0 <= r < roots@.len() ==> #[trigger] roots@[r] < ids.len(),
            forall|n: int| 0 <= n < ids.len() ==> (#[trigger] is_root(roots@, n) <==> (is_root(start, n) || library_root_before(production@, tests@, e as int, ids[n]))),
        decreases refs@.len() - e,
    {
        let edge = refs[e];
        let from = edge.from;
        let to = edge.to;
        proof {
            assert(ids[from as int] == edges[e as int].from);
            assert(ids[to as int] == edges[e as int].to);
        }
        let caller = match graph.positions[from] {
            Some((k, j)) => {
                let fragment = fragment_at(production, tests, k);
                proof {
                    crate::frames::lemma_last_definition_unique(frames, ids[from as int], k as int, j as int);
                    assert(fragment_of(frames, ids[from as int]) == *fragment);
                }
                (!fragment.non_production_consumer || (!fragment.is_product_root && !fragment.test_surface
                    && !reached_by_tests(production, tests, graph, tests_live, from)))
                    && is_production_target(targets, &fragment.compilation_target)
            },
            None => false,
        };
        let crosses = match (graph.positions[from], graph.positions[to]) {
            (Some((k1, j1)), Some((k2, j2))) => {
                proof {
                    crate::frames::lemma_last_definition_unique(frames, ids[from as int], k1 as int, j1 as int);
                    crate::frames::lemma_last_definition_unique(frames, ids[to as int], k2 as int, j2 as int);
                }
                fragment_at(production, tests, k1).crate_id != fragment_at(production, tests, k2).crate_id
            },
            _ => false,
        };
        proof {
            assert(caller == production_caller(production@, tests@, edges[e as int].from));
            assert(crosses == crosses_crates(frames, edges[e as int]));
        }
        let ghost before = roots@;
        if caller && crosses {
            push_library_targets(graph, library, to, roots);
        }
        proof {
            assert forall|n: int| 0 <= n < ids.len() implies (#[trigger] is_root(roots@, n) <==> (is_root(start, n) || library_root_before(production@, tests@, e + 1, ids[n]))) by {
                lemma_liveness_nodes(production@, tests@, *graph, to as int, n);
                if library_root_before(production@, tests@, e + 1, ids[n]) && !library_root_before(production@, tests@, e as int, ids[n]) {
                    let i = choose|i: int| 0 <= i < e + 1 && production_caller(production@, tests@, (#[trigger] edges[i]).from) && crosses_crates(frames, edges[i])
                        && (edges[i].to == ids[n] || liveness_equivalent(frames, edges[i].to, ids[n]));
                    assert(i == e);
                    if edges[i].to == ids[n] {
                        lemma_node_of(ids, n);
                        lemma_node_of(ids, to as int);
                    }
                }
                if library_root_before(production@, tests@, e as int, ids[n]) {
                    let i = choose|i: int| 0 <= i < e && production_caller(production@, tests@, (#[trigger] edges[i]).from) && crosses_crates(frames, edges[i])
                        && (edges[i].to == ids[n] || liveness_equivalent(frames, edges[i].to, ids[n]));
                    assert(library_root_before(production@, tests@, e + 1, ids[n]));
                }
                if caller && crosses && library@[n] && (n == to as int || liveness_equivalent(frames, ids[to as int], ids[n])) {
                    assert(library_root_before(production@, tests@, e + 1, ids[n]));
                }
            }
        }
        e = e + 1;
    }
    proof {
        assert forall|n: int| 0 <= n < ids.len() implies (library_root_before(production@, tests@, refs@.len() as int, ids[n]) <==> #[trigger] workspace_library_root(production@, tests@, ids[n])) by {
            assert(refs@.len() == edges.len());
        }
    }
}

/// Computes, for each node, whether compiled production code reaches it.
pub(crate) fn production_liveness(production: &[Fragment], tests: &[Fragment], graph: &Graph, tests_live: &Vec<bool>) -> (live: Vec<bool>)
    requires
        graph_of(production@, tests@, *graph),
        tests_live@.len() == graph.index.ids@.len(),
        forall|n: int| 0 <= n < tests_live@.len() ==> (#[trigger] tests_live@[n] <==> test_live(production@, tests@, graph.index.ids@[n])),
    ensures
        live@.len() == graph.index.ids@.len(),
        forall|n: int| 0 <= n < live@.len() ==> (#[trigger] live@[n] <==> production_live(production@, tests@, graph.index.ids@[n])),
{
    let ghost ids = graph.index.ids@;
    proof {
        lemma_parts_mentioned(production@, tests@, *graph);
    }
    let all = select_all(production.len());
    let defined = defined_nodes(production, &all, &graph.index);
    proof {
        assert forall|n: int| 0 <= n < defined@.len() implies #[trigger] defined@[n] == is_defined(production@, ids[n]) by {
            if is_defined(production@, ids[n]) {
                let (k, j) = choose|k: int, j: int| #[trigger] defines_at(production@, k, j, ids[n]);
                assert(all@[k]);
            }
        }
    }
    let mut libraries: Vec<bool> = Vec::new();
    let mut k: usize = 0;
    while k < production.len()
        invariant
            k <= production@.len(),
            libraries@.len() == k,
            forall|k2: int| 0 <= k2 < k ==> #[trigger] libraries@[k2] == library_product(production@[k2]),
        decreases production@.len() - k,
    {
        let fragment = &production[k];
        let is_library = fragment.is_product_root && match fragment.product_root_kind {
            Some(ProductionTargetKind::Library) => true,
            _ => false,
        };
        libraries.push(is_library);
        k = k + 1;
    }
    let library = defined_nodes(production, &libraries, &graph.index);
    let targets = production_targets(production);
    let adjacency = live_adjacency(production, tests, graph, &graph.production_edges, &defined, Ghost(production@));
    let mut roots: Vec<usize> = Vec::new();
    push_entry_roots(production, &graph.index, &mut roots);
    push_library_roots(production, tests, graph, tests_live, &targets, &library, &mut roots);
    proof {
        assert forall|x: DefinitionId| #[trigger] production_roots(production@, tests@)(x) implies is_node(ids, x) by {
            if entry_root(production@, x) {
                let k = choose|k: int| 0 <= k < production@.len() && (((#[trigger] production@[k]).is_product_root && production@[k].roots@.contains(x)) || production@[k].conservative_roots@.contains(x));
                assert(fragment_mentions(production@[k], x));
            } else {
                let (k, j) = choose|k: int, j: int| #[trigger] defines_at(production@, k, j, x) && library_product(production@[k]);
                assert(is_node(ids, production@[k].definitions@[j].id));
            }
        }
        lemma_part_edges_numbered(ids, production@, graph.production_edges@);
        lemma_live_walks(production@, tests@, *graph, production@, lists_of(adjacency@), roots@, production_roots(production@, tests@));
    }
    let live = reachable(&adjacency, roots);
    live
}

} // verus!
