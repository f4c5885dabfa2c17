//! Reachability over a graph whose nodes are dense indices.

use vstd::prelude::*;

verus! {

/// `adjacency[from]` lists an edge to `to`.
pub open spec fn has_edge(adjacency: Seq<Seq<usize>>, from: int, to: int) -> bool {
    0 <= from < adjacency.len() && exists|i: int| 0 <= i < adjacency[from].len() && #[trigger] adjacency[from][i] as int == to
}

/// `node` is listed among `roots`.
pub open spec fn is_root(roots: Seq<usize>, node: int) -> bool {
    exists|k: int| 0 <= k < roots.len() && #[trigger] roots[k] as int == node
}

/// `path` follows edges of `adjacency` from its first node to its last.
pub open spec fn is_path(adjacency: Seq<Seq<usize>>, path: Seq<int>) -> bool {
    &&& path.len() > 0
    &&& forall|i: int| 0 <= i < path.len() - 1 ==> #[trigger] has_edge(adjacency, path[i], path[i + 1])
}

/// Some path leads from one of `roots` to `node`.
pub open spec fn reaches(adjacency: Seq<Seq<usize>>, roots: Seq<usize>, node: int) -> bool {
    exists|path: Seq<int>|
        #![trigger is_path(adjacency, path)]
        is_path(adjacency, path) && is_root(roots, path[0]) && path.last() == node
}

/// Every listed neighbor is a node of the graph.
pub open spec fn well_formed(adjacency: Seq<Seq<usize>>) -> bool {
    forall|from: int, i: int|
        0 <= from < adjacency.len() && 0 <= i < adjacency[from].len() ==> #[trigger] adjacency[from][i] < adjacency.len()
}

/// The lists of a vector of vectors, as sequences.
pub open spec fn lists_of(adjacency: Seq<Vec<usize>>) -> Seq<Seq<usize>> {
    adjacency.map_values(|list: Vec<usize>| list@)
}

pub proof fn lemma_root_reaches(adjacency: Seq<Seq<usize>>, roots: Seq<usize>, root: usize)
    requires
        is_root(roots, root as int),
    ensures
        reaches(adjacency, roots, root as int),
{
    let path = seq![root as int];
    assert(is_path(adjacency, path));
}

pub proof fn lemma_step_reaches(adjacency: Seq<Seq<usize>>, roots: Seq<usize>, from: int, to: int)
    requires
        reaches(adjacency, roots, from),
        has_edge(adjacency, from, to),
    ensures
        reaches(adjacency, roots, to),
{
    let path = choose|path: Seq<int>|
        #![trigger is_path(adjacency, path)]
        is_path(adjacency, path) && is_root(roots, path[0]) && path.last() == from;
    let longer = path.push(to);
    assert forall|i: int| 0 <= i < longer.len() - 1 implies #[trigger] has_edge(adjacency, longer[i], longer[i + 1]) by {
        if i < path.len() - 1 {
            assert(has_edge(adjacency, path[i], path[i + 1]));
        }
    }
    assert(is_path(adjacency, longer));
}

/// A set of nodes that holds the roots and is closed under edges holds every reachable node.
pub proof fn lemma_closed_set_holds_reachable(
    adjacency: Seq<Seq<usize>>,
    roots: Seq<usize>,
    set: Seq<bool>,
    node: int,
)
    requires
        set.len() == adjacency.len(),
        forall|i: int| 0 <= i < roots.len() ==> roots[i] < set.len() && set[roots[i] as int],
        forall|from: int, to: int| 0 <= from < set.len() && set[from] && #[trigger] has_edge(adjacency, from, to) ==> 0 <= to < set.len() && set[to],
        reaches(adjacency, roots, node),
    ensures
        0 <= node < set.len() && set[node],
{
    let path = choose|path: Seq<int>|
        #![trigger is_path(adjacency, path)]
        is_path(adjacency, path) && is_root(roots, path[0]) && path.last() == node;
    let k = choose|k: int| 0 <= k < roots.len() && #[trigger] roots[k] as int == path[0];
    assert(set[roots[k] as int]);
    lemma_path_stays_in_set(adjacency, set, path, path.len() - 1);
}

proof fn lemma_path_stays_in_set(adjacency: Seq<Seq<usize>>, set: Seq<bool>, path: Seq<int>, i: int)
    requires
        0 <= i < path.len(),
        is_path(adjacency, path),
        0 <= path[0] < set.len() && set[path[0]],
        forall|from: int, to: int| 0 <= from < set.len() && set[from] && #[trigger] has_edge(adjacency, from, to) ==> 0 <= to < set.len() && set[to],
    ensures
        0 <= path[i] < set.len() && set[path[i]],
    decreases i,
{
    if i > 0 {
        lemma_path_stays_in_set(adjacency, set, path, i - 1);
        let j = i - 1;
        assert(has_edge(adjacency, path[j], path[j + 1]));
    }
}

/// The number of nodes not yet visited.
pub open spec fn unvisited(live: Seq<bool>) -> nat
    decreases live.len(),
{
    if live.len() == 0 {
        0
    } else {
        unvisited(live.drop_last()) + if live.last() { 0nat } else { 1nat }
    }
}

proof fn lemma_visit_decreases(live: Seq<bool>, index: int)
    requires
        0 <= index < live.len(),
        !live[index],
    ensures
        unvisited(live.update(index, true)) + 1 == unvisited(live),
    decreases live.len(),
{
    let updated = live.update(index, true);
    if index == live.len() - 1 {
        assert(updated.drop_last() =~= live.drop_last());
    } else {
        assert(updated.drop_last() =~= live.drop_last().update(index, true));
        lemma_visit_decreases(live.drop_last(), index);
    }
}

/// Computes the set of nodes reachable from `roots`.
pub fn reachable(adjacency: &Vec<Vec<usize>>, roots: Vec<usize>) -> (live: Vec<bool>)
    requires
        well_formed(lists_of(adjacency@)),
        forall|i: int| 0 <= i < roots@.len() ==> roots@[i] < adjacency@.len(),
    ensures
        live@.len() == adjacency@.len(),
        forall|node: int| 0 <= node < live@.len() ==> (live@[node] <==> reaches(lists_of(adjacency@), roots@, node)),
{
    let ghost graph = lists_of(adjacency@);
    let ghost initial = roots@;
    let node_count = adjacency.len();
    let mut live: Vec<bool> = Vec::new();
    while live.len() < node_count
        invariant
            live@.len() <= node_count,
            forall|i: int| 0 <= i < live@.len() ==> !live@[i],
        decreases node_count - live@.len(),
    {
        live.push(false);
    }
    let mut pending = roots;
    proof {
        assert forall|i: int| 0 <= i < pending@.len() implies reaches(graph, initial, pending@[i] as int) by {
            assert(initial[i] as int == pending@[i] as int);
            lemma_root_reaches(graph, initial, pending@[i]);
        }
    }
    while pending.len() > 0
        invariant
            graph == lists_of(adjacency@),
            well_formed(graph),
            node_count == adjacency@.len(),
            live@.len() == node_count,
            forall|i: int| 0 <= i < pending@.len() ==> pending@[i] < node_count,
            forall|i: int| 0 <= i < pending@.len() ==> reaches(graph, initial, #[trigger] pending@[i] as int),
            forall|node: int| 0 <= node < node_count && live@[node] ==> reaches(graph, initial, node),
            forall|i: int| 0 <= i < initial.len() ==> initial[i] < node_count && (live@[initial[i] as int] || pending@.contains(initial[i])),
            forall|from: int, to: int| 0 <= from < node_count && live@[from] && #[trigger] has_edge(graph, from, to) ==> (live@[to] || pending@.contains(to as usize)),
        decreases unvisited(live@), pending@.len(),
    {
        let ghost before_live = live@;
        let ghost before_pending = pending@;
        let node = pending.pop().unwrap();
        proof {
            assert(before_pending == pending@.push(node));
            assert(reaches(graph, initial, node as int)) by {
                assert(before_pending[before_pending.len() - 1] == node);
            }
        }
        if !live[node] {
            live.set(node, true);
            proof {
                lemma_visit_decreases(before_live, node as int);
            }
            let neighbors = &adjacency[node];
            let mut index: usize = 0;
            while index < neighbors.len()
                invariant
                    graph == lists_of(adjacency@),
                    well_formed(graph),
                    node_count == adjacency@.len(),
                    0 <= node < node_count,
                    neighbors@ == graph[node as int],
                    index <= neighbors@.len(),
                    live@.len() == node_count,
                    live@ == before_live.update(node as int, true),
                    unvisited(live@) < unvisited(before_live),
                    reaches(graph, initial, node as int),
                    forall|i: int| 0 <= i < pending@.len() ==> pending@[i] < node_count,
                    forall|i: int| 0 <= i < pending@.len() ==> reaches(graph, initial, #[trigger] pending@[i] as int),
                    forall|i: int| 0 <= i < before_pending.len() ==> pending@.contains(#[trigger] before_pending[i]) || before_pending[i] == node,
                    forall|i: int| 0 <= i < index ==> pending@.contains(#[trigger] neighbors@[i]),
                decreases neighbors@.len() - index,
            {
                let next = neighbors[index];
                let ghost prior = pending@;
                proof {
                    assert(next < node_count);
                    assert(graph[node as int][index as int] as int == next as int);
                    assert(has_edge(graph, node as int, next as int));
                    lemma_step_reaches(graph, initial, node as int, next as int);
                }
                pending.push(next);
                proof {
                    assert forall|i: int| 0 <= i < before_pending.len() implies pending@.contains(#[trigger] before_pending[i]) || before_pending[i] == node by {
                        if prior.contains(before_pending[i]) {
                            let j = choose|j: int| 0 <= j < prior.len() && prior[j] == before_pending[i];
                            assert(pending@[j] == before_pending[i]);
                        }
                    }
                    assert forall|i: int| 0 <= i < index + 1 implies pending@.contains(#[trigger] neighbors@[i]) by {
                        if i < index {
                            let j = choose|j: int| 0 <= j < prior.len() && prior[j] == neighbors@[i];
                            assert(pending@[j] == neighbors@[i]);
                        } else {
                            assert(pending@[prior.len() as int] == neighbors@[i]);
                        }
                    }
                }
                index = index + 1;
            }
            proof {
                assert forall|i: int| 0 <= i < initial.len() implies initial[i] < node_count && (live@[initial[i] as int] || pending@.contains(initial[i])) by {
                    if !before_live[initial[i] as int] && initial[i] != node {
                        assert(before_pending.contains(initial[i]));
                        let j = choose|j: int| 0 <= j < before_pending.len() && before_pending[j] == initial[i];
                        assert(pending@.contains(before_pending[j]) || before_pending[j] == node);
                    }
                }
                assert forall|from: int, to: int| 0 <= from < node_count && live@[from] && #[trigger] has_edge(graph, from, to) implies (live@[to] || pending@.contains(to as usize)) by {
                    if from == node {
                        let j = choose|j: int| 0 <= j < graph[from].len() && #[trigger] graph[from][j] as int == to;
                        assert(pending@.contains(neighbors@[j]));
                    } else {
                        assert(before_live[from]);
                        if !before_live[to] && to != node {
                            assert(before_pending.contains(to as usize));
                            let j = choose|j: int| 0 <= j < before_pending.len() && before_pending[j] == to as usize;
                            assert(pending@.contains(before_pending[j]) || before_pending[j] == node);
                        }
                    }
                }
            }
        } else {
            proof {
                assert forall|i: int| 0 <= i < initial.len() implies initial[i] < node_count && (live@[initial[i] as int] || pending@.contains(initial[i])) by {
                    if !live@[initial[i] as int] {
                        assert(before_pending.contains(initial[i]));
                        let j = choose|j: int| 0 <= j < before_pending.len() && before_pending[j] == initial[i];
                        if j < pending@.len() {
                            assert(pending@[j] == initial[i]);
                        }
                    }
                }
                assert forall|from: int, to: int| 0 <= from < node_count && live@[from] && #[trigger] has_edge(graph, from, to) implies (live@[to] || pending@.contains(to as usize)) by {
                    if !live@[to] {
                        assert(before_pending.contains(to as usize));
                        let j = choose|j: int| 0 <= j < before_pending.len() && before_pending[j] == to as usize;
                        if j < pending@.len() {
                            assert(pending@[j] == to as usize);
                        }
                    }
                }
            }
        }
    }
    proof {
        assert forall|node: int| 0 <= node < live@.len() implies (live@[node] <==> reaches(graph, initial, node)) by {
            if reaches(graph, initial, node) {
                assert forall|from: int, to: int| 0 <= from < live@.len() && live@[from] && #[trigger] has_edge(graph, from, to) implies 0 <= to < live@.len() && live@[to] by {
                    assert(live@[to] || pending@.contains(to as usize));
                }
                lemma_closed_set_holds_reachable(graph, initial, live@, node);
            }
        }
    }
    live
}

/// `path` follows `relation` from its first element to its last.
pub open spec fn is_walk<A>(relation: spec_fn(A, A) -> bool, path: Seq<A>) -> bool {
    &&& path.len() > 0
    &&& forall|i: int| 0 <= i < path.len() - 1 ==> #[trigger] relation(path[i], path[i + 1])
}

/// Some walk along `relation` leads from an element satisfying `root` to `target`.
pub open spec fn walks_to<A>(relation: spec_fn(A, A) -> bool, root: spec_fn(A) -> bool, target: A) -> bool {
    exists|path: Seq<A>| #![trigger is_walk(relation, path)] is_walk(relation, path) && root(path[0]) && path.last() == target
}

/// Reachability over node numbers agrees with reachability over the elements that the
/// nodes number, when edges and roots correspond and only numbered elements take part.
pub proof fn lemma_walks_correspond<A>(
    elements: Seq<A>,
    adjacency: Seq<Seq<usize>>,
    roots: Seq<usize>,
    relation: spec_fn(A, A) -> bool,
    root: spec_fn(A) -> bool,
    node: int,
)
    requires
        adjacency.len() == elements.len(),
        elements.len() <= usize::MAX,
        0 <= node < elements.len(),
        forall|a: int, b: int| 0 <= a < elements.len() && 0 <= b < elements.len() && a != b ==> elements[a] != elements[b],
        forall|n: int, m: int| 0 <= n < elements.len() && 0 <= m < elements.len() ==> (#[trigger] has_edge(adjacency, n, m) <==> relation(elements[n], elements[m])),
        forall|n: int, m: int| #[trigger] has_edge(adjacency, n, m) ==> 0 <= m < elements.len(),
        forall|x: A, y: A| #[trigger] relation(x, y) ==> (exists|n: int| 0 <= n < elements.len() && elements[n] == x) && (exists|m: int| 0 <= m < elements.len() && elements[m] == y),
        forall|n: int| 0 <= n < elements.len() ==> (#[trigger] is_root(roots, n) <==> root(elements[n])),
        forall|n: int| #[trigger] is_root(roots, n) ==> 0 <= n < elements.len(),
        forall|x: A| #[trigger] root(x) ==> exists|n: int| 0 <= n < elements.len() && elements[n] == x,
    ensures
        reaches(adjacency, roots, node) <==> walks_to(relation, root, elements[node]),
{
    if reaches(adjacency, roots, node) {
        let path = choose|path: Seq<int>| #![trigger is_path(adjacency, path)] is_path(adjacency, path) && is_root(roots, path[0]) && path.last() == node;
        assert forall|i: int| 0 <= i < path.len() implies 0 <= #[trigger] path[i] < elements.len() by {
            if i > 0 {
                let j = i - 1;
                assert(has_edge(adjacency, path[j], path[j + 1]));
            }
        }
        let walk = path.map_values(|n: int| elements[n]);
        assert forall|i: int| 0 <= i < walk.len() - 1 implies #[trigger] relation(walk[i], walk[i + 1]) by {
            assert(has_edge(adjacency, path[i], path[i + 1]));
            assert(0 <= path[i] < elements.len());
            assert(0 <= path[i + 1] < elements.len());
        }
        assert(is_walk(relation, walk));
        assert(root(walk[0]));
    }
    if walks_to(relation, root, elements[node]) {
        let walk = choose|walk: Seq<A>| #![trigger is_walk(relation, walk)] is_walk(relation, walk) && root(walk[0]) && walk.last() == elements[node];
        let position = |x: A| choose|n: int| 0 <= n < elements.len() && elements[n] == x;
        assert forall|i: int| 0 <= i < walk.len() implies exists|n: int| 0 <= n < elements.len() && elements[n] == #[trigger] walk[i] by {
            if i < walk.len() - 1 {
                assert(relation(walk[i], walk[i + 1]));
            } else if i > 0 {
                let j = i - 1;
                assert(relation(walk[j], walk[j + 1]));
            } else {
                assert(root(walk[0]));
            }
        }
        let path = walk.map_values(position);
        assert forall|i: int| 0 <= i < path.len() implies 0 <= #[trigger] path[i] < elements.len() && elements[path[i]] == walk[i] by {
            assert(exists|n: int| 0 <= n < elements.len() && elements[n] == walk[i]);
        }
        assert forall|i: int| 0 <= i < path.len() - 1 implies #[trigger] has_edge(adjacency, path[i], path[i + 1]) by {
            assert(0 <= path[i] < elements.len() && elements[path[i]] == walk[i]);
            assert(0 <= path[i + 1] < elements.len() && elements[path[i + 1]] == walk[i + 1]);
            assert(relation(walk[i], walk[i + 1]));
        }
        assert(is_path(adjacency, path));
        assert(0 <= path[0] < elements.len() && elements[path[0]] == walk[0]);
        assert(is_root(roots, path[0]));
        let last = path.len() - 1;
        assert(0 <= path[last] < elements.len() && elements[path[last]] == walk[last]);
        assert(path.last() == node);
    }
}

} // verus!
