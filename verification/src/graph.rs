//! The numbered graph of a workspace: nodes, kept definitions, source groups, and edges.

use vstd::prelude::*;
use crate::model::{DefinitionId, Fragment};
use crate::nodes::{NodeIndex, distinct_ids, is_node};
use crate::frames::{
    EdgeRef, chain, total_size, mentions, flat_edges, numbers_edges, number_nodes,
    definition_positions, number_edges, is_defined, lemma_total_size_counts_fragments,
    is_last_definition, defines_at,
};
use crate::equivalence::{
    SourceClasses, groups_by_source, source_classes, liveness_sharing, distinct_compilations,
    records_positions, same_source, liveness_equivalent, lemma_same_source_nodes,
    lemma_shares_liveness_nodes, lemma_defined_is_mentioned, source_identity_of,
};

verus! {

/// The numbered graph that the analysis works on.
pub(crate) struct Graph {
    pub(crate) index: NodeIndex,
    pub(crate) positions: Vec<Option<(usize, usize)>>,
    pub(crate) classes: SourceClasses,
    pub(crate) shares: Vec<bool>,
    pub(crate) production_edges: Vec<EdgeRef>,
    pub(crate) test_edges: Vec<EdgeRef>,
    pub(crate) all_edges: Vec<EdgeRef>,
}

/// The edges that the analysis reads: production edges, then test edges.
pub open spec fn all_edges(production: Seq<Fragment>, tests: Seq<Fragment>) -> Seq<crate::model::Edge> {
    flat_edges(production) + flat_edges(tests)
}

/// `graph` numbers the fragments `production` and `tests`.
pub(crate) open spec fn graph_of(production: Seq<Fragment>, tests: Seq<Fragment>, graph: Graph) -> bool {
    let frames = chain(production, tests);
    let ids = graph.index.ids@;
    &&& graph.index.wf()
    &&& distinct_ids(ids)
    &&& total_size(frames) < usize::MAX
    &&& ids.len() <= total_size(frames)
    &&& forall|id: DefinitionId| mentions(frames, id) ==> is_node(ids, id)
    &&& records_positions(frames, ids, graph.positions@)
    &&& groups_by_source(frames, ids, graph.classes)
    &&& graph.classes.members@.len() <= ids.len()
    &&& graph.shares@.len() == graph.classes.members@.len()
    &&& forall|c: int| 0 <= c < graph.shares@.len() ==> #[trigger] graph.shares@[c] == distinct_compilations(graph.classes.members@[c]@, graph.positions@)
    &&& numbers_edges(ids, flat_edges(production), graph.production_edges@)
    &&& numbers_edges(ids, flat_edges(tests), graph.test_edges@)
    &&& numbers_edges(ids, all_edges(production, tests), graph.all_edges@)
}

/// Builds the numbered graph of the fragments.
pub(crate) fn build_graph(production: &[Fragment], tests: &[Fragment]) -> (graph: Graph)
    requires
        total_size(chain(production@, tests@)) < usize::MAX,
    ensures
        graph_of(production@, tests@, graph),
{
    let ghost frames = chain(production@, tests@);
    let index = number_nodes(production, tests);
    proof {
        index.lemma_wf_distinct();
        lemma_total_size_counts_fragments(frames);
    }
    let positions = definition_positions(production, tests, &index);
    let classes = source_classes(production, tests, &index, &positions);
    let fragment_count = production.len() + tests.len();
    proof {
        assert forall|c: int, i: int| 0 <= c < classes.members@.len() && 0 <= i < classes.members@[c]@.len() implies {
            &&& (#[trigger] classes.members@[c]@[i]) < positions@.len()
            &&& positions@[classes.members@[c]@[i] as int] is Some
            &&& (positions@[classes.members@[c]@[i] as int]->0).0 < fragment_count
        } by {
            let node = classes.members@[c]@[i] as int;
            assert(classes.class_of@[node] is Some);
            assert(source_identity_of(frames, index.ids@[node]) is Some);
            assert(positions@[node] is Some);
            assert(is_last_definition(frames, index.ids@[node], (positions@[node]->0).0 as int, (positions@[node]->0).1 as int));
        }
    }
    let shares = liveness_sharing(&classes, &positions, fragment_count);
    proof {
        assert forall|k: int, j: int| 0 <= k < production@.len() && 0 <= j < production@[k].edges@.len() implies is_node(index.ids@, (#[trigger] production@[k].edges@[j]).from) && is_node(index.ids@, production@[k].edges@[j].to) by {
            assert(frames[k] == production@[k]);
            assert(crate::frames::fragment_mentions(frames[k], production@[k].edges@[j].from));
            assert(crate::frames::fragment_mentions(frames[k], production@[k].edges@[j].to));
        }
        assert forall|k: int, j: int| 0 <= k < tests@.len() && 0 <= j < tests@[k].edges@.len() implies is_node(index.ids@, (#[trigger] tests@[k].edges@[j]).from) && is_node(index.ids@, tests@[k].edges@[j].to) by {
            assert(frames[production@.len() + k] == tests@[k]);
            assert(crate::frames::fragment_mentions(frames[production@.len() + k], tests@[k].edges@[j].from));
            assert(crate::frames::fragment_mentions(frames[production@.len() + k], tests@[k].edges@[j].to));
        }
    }
    let production_edges = number_edges(production, &index);
    let test_edges = number_edges(tests, &index);
    let mut all: Vec<EdgeRef> = Vec::new();
    let mut i: usize = 0;
    while i < production_edges.len()
        invariant
            i <= production_edges@.len(),
            all@ == production_edges@.take(i as int),
        decreases production_edges@.len() - i,
    {
        all.push(production_edges[i]);
        proof {
            assert(production_edges@.take(i + 1) =~= production_edges@.take(i as int).push(production_edges@[i as int]));
        }
        i = i + 1;
    }
    proof {
        assert(production_edges@.take(production_edges@.len() as int) =~= production_edges@);
    }
    let mut j: usize = 0;
    while j < test_edges.len()
        invariant
            j <= test_edges@.len(),
            all@ == production_edges@ + test_edges@.take(j as int),
        decreases test_edges@.len() - j,
    {
        all.push(test_edges[j]);
        proof {
            assert(production_edges@ + test_edges@.take(j + 1) =~= (production_edges@ + test_edges@.take(j as int)).push(test_edges@[j as int]));
        }
        j = j + 1;
    }
    proof {
        assert(test_edges@.take(test_edges@.len() as int) =~= test_edges@);
        let combined = all_edges(production@, tests@);
        assert forall|e: int| 0 <= e < all@.len() implies {
            &&& (#[trigger] all@[e]).from < index.ids@.len()
            &&& all@[e].to < index.ids@.len()
            &&& index.ids@[all@[e].from as int] == combined[e].from
            &&& index.ids@[all@[e].to as int] == combined[e].to
            &&& all@[e].kind == combined[e].kind
        } by {
            if e < production_edges@.len() {
                assert(all@[e] == production_edges@[e]);
                assert(combined[e] == flat_edges(production@)[e]);
            } else {
                assert(all@[e] == test_edges@[e - production_edges@.len()]);
                assert(combined[e] == flat_edges(tests@)[e - production_edges@.len()]);
            }
        }
    }
    Graph { index, positions, classes, shares, production_edges, test_edges, all_edges: all }
}

/// Liveness equivalence between numbered definitions is membership in a group that shares liveness.
pub(crate) proof fn lemma_liveness_nodes(production: Seq<Fragment>, tests: Seq<Fragment>, graph: Graph, x: int, y: int)
    requires
        graph_of(production, tests, graph),
        0 <= x < graph.index.ids@.len(),
        0 <= y < graph.index.ids@.len(),
    ensures
        liveness_equivalent(chain(production, tests), graph.index.ids@[x], graph.index.ids@[y]) <==> (x != y
            && graph.classes.class_of@[x] is Some && graph.classes.class_of@[x] == graph.classes.class_of@[y]
            && graph.shares@[graph.classes.class_of@[x]->0 as int]),
        same_source(chain(production, tests), graph.index.ids@[x], graph.index.ids@[y]) <==> (x != y
            && graph.classes.class_of@[x] is Some && graph.classes.class_of@[x] == graph.classes.class_of@[y]),
{
    let frames = chain(production, tests);
    let ids = graph.index.ids@;
    lemma_same_source_nodes(frames, ids, graph.classes, x, y);
    if graph.classes.class_of@[x] is Some {
        lemma_shares_liveness_nodes(frames, ids, graph.classes, graph.positions@, x);
    }
}

/// Definitions from one source declaration are numbered.
pub(crate) proof fn lemma_same_source_numbered(production: Seq<Fragment>, tests: Seq<Fragment>, graph: Graph, a: DefinitionId, b: DefinitionId)
    requires
        graph_of(production, tests, graph),
        same_source(chain(production, tests), a, b),
    ensures
        is_node(graph.index.ids@, a),
        is_node(graph.index.ids@, b),
{
    let frames = chain(production, tests);
    assert(is_defined(frames, a));
    assert(is_defined(frames, b));
    lemma_defined_is_mentioned(frames, a);
    lemma_defined_is_mentioned(frames, b);
}

} // verus!
