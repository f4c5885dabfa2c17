//! The fragments of an analysis, read as one sequence, and the facts drawn from it.

use vstd::prelude::*;
use crate::model::{Definition, DefinitionId, Edge, EdgeKind, Fragment};
use crate::nodes::{NodeIndex, distinct_ids, is_node, node_of};

verus! {

/// The fragments in the order in which the analysis reads them: production, then tests.
pub open spec fn chain(production: Seq<Fragment>, tests: Seq<Fragment>) -> Seq<Fragment> {
    production + tests
}

/// Definition `j` of fragment `k` carries `id`.
pub open spec fn defines_at(frames: Seq<Fragment>, k: int, j: int, id: DefinitionId) -> bool {
    0 <= k < frames.len() && 0 <= j < frames[k].definitions@.len() && frames[k].definitions@[j].id == id
}

/// Some fragment defines `id`.
pub open spec fn is_defined(frames: Seq<Fragment>, id: DefinitionId) -> bool {
    exists|k: int, j: int| #[trigger] defines_at(frames, k, j, id)
}

/// Definition `j` of fragment `k` is the last one that carries `id`; it is the one the
/// analysis keeps.
pub open spec fn is_last_definition(frames: Seq<Fragment>, id: DefinitionId, k: int, j: int) -> bool {
    &&& defines_at(frames, k, j, id)
    &&& forall|k2: int, j2: int| #[trigger] defines_at(frames, k2, j2, id) ==> (k2 < k || (k2 == k && j2 <= j))
}

/// The position of the definition kept for `id`.
pub open spec fn last_definition(frames: Seq<Fragment>, id: DefinitionId) -> (int, int) {
    choose|pos: (int, int)| is_last_definition(frames, id, pos.0, pos.1)
}

/// The definition kept for `id`.
pub open spec fn definition_of(frames: Seq<Fragment>, id: DefinitionId) -> Definition {
    frames[last_definition(frames, id).0].definitions@[last_definition(frames, id).1]
}

/// The fragment of the definition kept for `id`.
pub open spec fn fragment_of(frames: Seq<Fragment>, id: DefinitionId) -> Fragment {
    frames[last_definition(frames, id).0]
}

/// The compilation (fragment number) of the definition kept for `id`.
pub open spec fn compilation_of(frames: Seq<Fragment>, id: DefinitionId) -> int {
    last_definition(frames, id).0
}

pub proof fn lemma_last_definition_unique(frames: Seq<Fragment>, id: DefinitionId, k: int, j: int)
    requires
        is_last_definition(frames, id, k, j),
    ensures
        last_definition(frames, id) == (k, j),
        is_defined(frames, id),
{
    assert(is_last_definition(frames, id, (k, j).0, (k, j).1));
    let pos = last_definition(frames, id);
    assert(is_last_definition(frames, id, pos.0, pos.1));
    assert(defines_at(frames, pos.0, pos.1, id));
    assert(defines_at(frames, k, j, id));
}

/// The edges of a sequence of fragments, in order.
pub open spec fn flat_edges(frames: Seq<Fragment>) -> Seq<Edge>
    decreases frames.len(),
{
    if frames.len() == 0 {
        Seq::empty()
    } else {
        flat_edges(frames.drop_last()) + frames.last().edges@
    }
}

/// The identifiers that a fragment mentions: definitions, edge endpoints, and roots.
pub open spec fn fragment_mentions(fragment: Fragment, id: DefinitionId) -> bool {
    ||| exists|j: int| 0 <= j < fragment.definitions@.len() && #[trigger] fragment.definitions@[j].id == id
    ||| exists|j: int| 0 <= j < fragment.edges@.len() && (#[trigger] fragment.edges@[j]).from == id
    ||| exists|j: int| 0 <= j < fragment.edges@.len() && (#[trigger] fragment.edges@[j]).to == id
    ||| fragment.roots@.contains(id)
    ||| fragment.conservative_roots@.contains(id)
    ||| fragment.required_public_roots@.contains(id)
}

/// Some fragment mentions `id`.
pub open spec fn mentions(frames: Seq<Fragment>, id: DefinitionId) -> bool {
    exists|k: int| 0 <= k < frames.len() && fragment_mentions(#[trigger] frames[k], id)
}

/// The size of one fragment: one for the fragment and one for each identifier mention.
pub open spec fn fragment_size(fragment: Fragment) -> nat {
    1 + fragment.definitions@.len() + 2 * fragment.edges@.len() + fragment.roots@.len()
        + fragment.conservative_roots@.len() + fragment.required_public_roots@.len()
}

/// The size of a sequence of fragments.
pub open spec fn total_size(frames: Seq<Fragment>) -> nat
    decreases frames.len(),
{
    if frames.len() == 0 {
        0
    } else {
        total_size(frames.drop_last()) + fragment_size(frames.last())
    }
}

/// An edge between node numbers.
#[derive(Clone, Copy)]
pub struct EdgeRef {
    pub from: usize,
    pub to: usize,
    pub kind: EdgeKind,
}

/// `refs` numbers the endpoints of `edges` by `ids`.
pub open spec fn numbers_edges(ids: Seq<DefinitionId>, edges: Seq<Edge>, refs: Seq<EdgeRef>) -> bool {
    &&& refs.len() == edges.len()
    &&& forall|i: int| 0 <= i < refs.len() ==> {
        &&& (#[trigger] refs[i]).from < ids.len()
        &&& refs[i].to < ids.len()
        &&& ids[refs[i].from as int] == edges[i].from
        &&& ids[refs[i].to as int] == edges[i].to
        &&& refs[i].kind == edges[i].kind
    }
}

/// The fragment at position `k` of the chain of production and test fragments.
pub fn fragment_at<'a>(production: &'a [Fragment], tests: &'a [Fragment], k: usize) -> (fragment: &'a Fragment)
    requires
        k < production@.len() + tests@.len(),
    ensures
        *fragment == chain(production@, tests@)[k as int],
{
    if k < production.len() {
        &production[k]
    } else {
        &tests[k - production.len()]
    }
}

/// `new_ids` extends `old_ids`.
pub open spec fn grows(old_ids: Seq<DefinitionId>, new_ids: Seq<DefinitionId>) -> bool {
    old_ids.len() <= new_ids.len() && new_ids.take(old_ids.len() as int) == old_ids
}

pub proof fn lemma_grows_trans(a: Seq<DefinitionId>, b: Seq<DefinitionId>, c: Seq<DefinitionId>)
    requires
        grows(a, b),
        grows(b, c),
    ensures
        grows(a, c),
{
    assert(c.take(a.len() as int) =~= a) by {
        assert forall|i: int| 0 <= i < a.len() implies c.take(a.len() as int)[i] == a[i] by {
            assert(c.take(b.len() as int)[i] == b[i]);
            assert(b.take(a.len() as int)[i] == a[i]);
        }
    }
}

pub proof fn lemma_is_node_grows(old_ids: Seq<DefinitionId>, new_ids: Seq<DefinitionId>, id: DefinitionId)
    requires
        grows(old_ids, new_ids),
        is_node(old_ids, id),
    ensures
        is_node(new_ids, id),
{
    let n = choose|n: int| 0 <= n < old_ids.len() && #[trigger] old_ids[n] == id;
    assert(new_ids.take(old_ids.len() as int)[n] == new_ids[n]);
}

proof fn lemma_total_size_step(frames: Seq<Fragment>, k: int)
    requires
        0 <= k < frames.len(),
    ensures
        total_size(frames.take(k + 1)) == total_size(frames.take(k)) + fragment_size(frames[k]),
        total_size(frames.take(k)) <= total_size(frames.take(k + 1)),
{
    assert(frames.take(k + 1).drop_last() =~= frames.take(k));
}

proof fn lemma_total_size_prefix(frames: Seq<Fragment>, k: int)
    requires
        0 <= k <= frames.len(),
    ensures
        total_size(frames.take(k)) <= total_size(frames),
    decreases frames.len() - k,
{
    if k < frames.len() {
        lemma_total_size_step(frames, k);
        lemma_total_size_prefix(frames, k + 1);
    } else {
        assert(frames.take(k) =~= frames);
    }
}

/// Whether the production and test fragments together are small enough to analyze: their
/// size stays below the largest `usize`.
pub fn fits_analysis(production: &[Fragment], tests: &[Fragment]) -> (fits: bool)
    ensures
        fits == (total_size(chain(production@, tests@)) < usize::MAX),
{
    let ghost frames = chain(production@, tests@);
    let limit: u128 = usize::MAX as u128;
    let mut total: u128 = 0;
    let mut i: usize = 0;
    while i < production.len()
        invariant
            frames == chain(production@, tests@),
            limit == usize::MAX,
            i <= production@.len(),
            total == total_size(frames.take(i as int)),
            total < limit,
        decreases production@.len() - i,
    {
        let fragment = &production[i];
        proof {
            assert(frames[i as int] == production@[i as int]);
            lemma_total_size_step(frames, i as int);
        }
        total = total + 1 + fragment.definitions.len() as u128 + 2 * (fragment.edges.len() as u128) + fragment.roots.len() as u128
            + fragment.conservative_roots.len() as u128 + fragment.required_public_roots.len() as u128;
        if total >= limit {
            proof {
                lemma_total_size_prefix(frames, i as int + 1);
            }
            return false;
        }
        i = i + 1;
    }
    let mut j: usize = 0;
    while j < tests.len()
        invariant
            frames == chain(production@, tests@),
            limit == usize::MAX,
            j <= tests@.len(),
            total == total_size(frames.take(production@.len() + j)),
            total < limit,
        decreases tests@.len() - j,
    {
        let fragment = &tests[j];
        let ghost at = production@.len() + j;
        proof {
            assert(frames[at] == tests@[j as int]);
            lemma_total_size_step(frames, at);
        }
        total = total + 1 + fragment.definitions.len() as u128 + 2 * (fragment.edges.len() as u128) + fragment.roots.len() as u128
            + fragment.conservative_roots.len() as u128 + fragment.required_public_roots.len() as u128;
        if total >= limit {
            proof {
                lemma_total_size_prefix(frames, at + 1);
            }
            return false;
        }
        j = j + 1;
    }
    proof {
        assert(frames.take(frames.len() as int) =~= frames);
    }
    true
}

pub proof fn lemma_total_size_counts_fragments(frames: Seq<Fragment>)
    ensures
        frames.len() <= total_size(frames),
    decreases frames.len(),
{
    if frames.len() > 0 {
        lemma_total_size_counts_fragments(frames.drop_last());
    }
}

/// Interns one identifier, keeping the numbering of earlier ones.
fn intern_one(index: &mut NodeIndex, id: DefinitionId) -> (node: usize)
    requires
        old(index).wf(),
        old(index).ids@.len() < usize::MAX,
    ensures
        final(index).wf(),
        grows(old(index).ids@, final(index).ids@),
        final(index).ids@.len() <= old(index).ids@.len() + 1,
        is_node(final(index).ids@, id),
        node < final(index).ids@.len() && final(index).ids@[node as int] == id,
        forall|other: DefinitionId| is_node(old(index).ids@, other) ==> is_node(final(index).ids@, other),
{
    let node = index.intern(id);
    proof {
        assert(final(index).ids@[node as int] == id);
        assert forall|other: DefinitionId| is_node(old(index).ids@, other) implies is_node(final(index).ids@, other) by {
            lemma_is_node_grows(old(index).ids@, final(index).ids@, other);
        }
    }
    node
}

/// Interns the identifiers of a list of definitions.
fn intern_definitions(index: &mut NodeIndex, definitions: &Vec<Definition>)
    requires
        old(index).wf(),
        old(index).ids@.len() + definitions@.len() < usize::MAX,
    ensures
        final(index).wf(),
        grows(old(index).ids@, final(index).ids@),
        final(index).ids@.len() <= old(index).ids@.len() + definitions@.len(),
        forall|j: int| 0 <= j < definitions@.len() ==> is_node(final(index).ids@, #[trigger] definitions@[j].id),
        forall|other: DefinitionId| is_node(old(index).ids@, other) ==> is_node(final(index).ids@, other),
{
    let ghost start = index.ids@;
    assert(start.take(start.len() as int) =~= start);
    let mut j: usize = 0;
    while j < definitions.len()
        invariant
            index.wf(),
            grows(start, index.ids@),
            index.ids@.len() <= start.len() + j,
            start.len() + definitions@.len() < usize::MAX,
            j <= definitions@.len(),
            forall|j2: int| 0 <= j2 < j ==> is_node(index.ids@, #[trigger] definitions@[j2].id),
            forall|other: DefinitionId| is_node(start, other) ==> is_node(index.ids@, other),
        decreases definitions@.len() - j,
    {
        let ghost prior = index.ids@;
        intern_one(index, definitions[j].id);
        proof {
            lemma_grows_trans(start, prior, index.ids@);
        }
        j = j + 1;
    }
}

/// Interns the endpoints of a list of edges.
fn intern_edges(index: &mut NodeIndex, edges: &Vec<Edge>)
    requires
        old(index).wf(),
        old(index).ids@.len() + 2 * edges@.len() < usize::MAX,
    ensures
        final(index).wf(),
        grows(old(index).ids@, final(index).ids@),
        final(index).ids@.len() <= old(index).ids@.len() + 2 * edges@.len(),
        forall|j: int| 0 <= j < edges@.len() ==> is_node(final(index).ids@, (#[trigger] edges@[j]).from) && is_node(final(index).ids@, edges@[j].to),
        forall|other: DefinitionId| is_node(old(index).ids@, other) ==> is_node(final(index).ids@, other),
{
    let ghost start = index.ids@;
    assert(start.take(start.len() as int) =~= start);
    let mut j: usize = 0;
    while j < edges.len()
        invariant
            index.wf(),
            grows(start, index.ids@),
            index.ids@.len() <= start.len() + 2 * j,
            start.len() + 2 * edges@.len() < usize::MAX,
            j <= edges@.len(),
            forall|j2: int| 0 <= j2 < j ==> is_node(index.ids@, (#[trigger] edges@[j2]).from) && is_node(index.ids@, edges@[j2].to),
            forall|other: DefinitionId| is_node(start, other) ==> is_node(index.ids@, other),
        decreases edges@.len() - j,
    {
        let ghost prior = index.ids@;
        intern_one(index, edges[j].from);
        let ghost middle = index.ids@;
        intern_one(index, edges[j].to);
        proof {
            lemma_grows_trans(start, prior, middle);
            lemma_grows_trans(start, middle, index.ids@);
        }
        j = j + 1;
    }
}

/// Interns a list of identifiers.
fn intern_ids(index: &mut NodeIndex, ids: &Vec<DefinitionId>)
    requires
        old(index).wf(),
        old(index).ids@.len() + ids@.len() < usize::MAX,
    ensures
        final(index).wf(),
        grows(old(index).ids@, final(index).ids@),
        final(index).ids@.len() <= old(index).ids@.len() + ids@.len(),
        forall|id: DefinitionId| ids@.contains(id) ==> is_node(final(index).ids@, id),
        forall|other: DefinitionId| is_node(old(index).ids@, other) ==> is_node(final(index).ids@, other),
{
    let ghost start = index.ids@;
    assert(start.take(start.len() as int) =~= start);
    let mut j: usize = 0;
    while j < ids.len()
        invariant
            index.wf(),
            grows(start, index.ids@),
            index.ids@.len() <= start.len() + j,
            start.len() + ids@.len() < usize::MAX,
            j <= ids@.len(),
            forall|j2: int| 0 <= j2 < j ==> is_node(index.ids@, #[trigger] ids@[j2]),
            forall|other: DefinitionId| is_node(start, other) ==> is_node(index.ids@, other),
        decreases ids@.len() - j,
    {
        let ghost prior = index.ids@;
        intern_one(index, ids[j]);
        proof {
            lemma_grows_trans(start, prior, index.ids@);
        }
        j = j + 1;
    }
}

/// Numbers every identifier that the fragments mention.
pub(crate) fn number_nodes(production: &[Fragment], tests: &[Fragment]) -> (index: NodeIndex)
    requires
        total_size(chain(production@, tests@)) < usize::MAX,
    ensures
        index.wf(),
        index.ids@.len() <= total_size(chain(production@, tests@)),
        forall|id: DefinitionId| mentions(chain(production@, tests@), id) ==> is_node(index.ids@, id),
{
    let ghost frames = chain(production@, tests@);
    proof {
        lemma_total_size_counts_fragments(frames);
    }
    let count = production.len() + tests.len();
    let mut index = NodeIndex::new();
    let mut k: usize = 0;
    assert(frames.take(0) =~= Seq::<Fragment>::empty());
    while k < count
        invariant
            count == frames.len(),
            frames == chain(production@, tests@),
            k <= count,
            index.wf(),
            total_size(frames) < usize::MAX,
            index.ids@.len() <= total_size(frames.take(k as int)),
            forall|k2: int, id: DefinitionId| 0 <= k2 < k && #[trigger] fragment_mentions(frames[k2], id) ==> is_node(index.ids@, id),
        decreases count - k,
    {
        let fragment = fragment_at(production, tests, k);
        let ghost before = index.ids@;
        proof {
            lemma_total_size_step(frames, k as int);
            lemma_total_size_prefix(frames, k as int + 1);
        }
        intern_definitions(&mut index, &fragment.definitions);
        let ghost after_definitions = index.ids@;
        intern_edges(&mut index, &fragment.edges);
        let ghost after_edges = index.ids@;
        intern_ids(&mut index, &fragment.roots);
        let ghost after_roots = index.ids@;
        intern_ids(&mut index, &fragment.conservative_roots);
        let ghost after_conservative = index.ids@;
        intern_ids(&mut index, &fragment.required_public_roots);
        proof {
            assert forall|k2: int, id: DefinitionId| 0 <= k2 < k + 1 && #[trigger] fragment_mentions(frames[k2], id) implies is_node(index.ids@, id) by {
                if k2 == k as int {
                    if exists|j: int| 0 <= j < fragment.definitions@.len() && #[trigger] fragment.definitions@[j].id == id {
                        let j = choose|j: int| 0 <= j < fragment.definitions@.len() && #[trigger] fragment.definitions@[j].id == id;
                        assert(is_node(after_definitions, fragment.definitions@[j].id));
                    } else if exists|j: int| 0 <= j < fragment.edges@.len() && (#[trigger] fragment.edges@[j]).from == id {
                        let j = choose|j: int| 0 <= j < fragment.edges@.len() && (#[trigger] fragment.edges@[j]).from == id;
                        assert(is_node(after_edges, fragment.edges@[j].from));
                    } else if exists|j: int| 0 <= j < fragment.edges@.len() && (#[trigger] fragment.edges@[j]).to == id {
                        let j = choose|j: int| 0 <= j < fragment.edges@.len() && (#[trigger] fragment.edges@[j]).to == id;
                        assert(is_node(after_edges, fragment.edges@[j].to));
                    } else if fragment.roots@.contains(id) {
                        assert(is_node(after_roots, id));
                    } else if fragment.conservative_roots@.contains(id) {
                        assert(is_node(after_conservative, id));
                    }
                }
            }
        }
        k = k + 1;
    }
    proof {
        assert(frames.take(count as int) =~= frames);
        assert forall|id: DefinitionId| mentions(frames, id) implies is_node(index.ids@, id) by {
            let k2 = choose|k2: int| 0 <= k2 < frames.len() && #[trigger] fragment_mentions(frames[k2], id);
        }
    }
    index
}

/// Position `(k, j)` comes before position `(k2, j2)` in reading order.
pub open spec fn before(k: int, j: int, k2: int, j2: int) -> bool {
    k < k2 || (k == k2 && j < j2)
}

/// No definition before position `(k, j)` carries `id`.
pub open spec fn unseen_before(frames: Seq<Fragment>, id: DefinitionId, k: int, j: int) -> bool {
    forall|k2: int, j2: int| before(k2, j2, k, j) ==> !#[trigger] defines_at(frames, k2, j2, id)
}

/// Position `(a, b)` holds the last definition of `id` before position `(k, j)`.
pub open spec fn last_before(frames: Seq<Fragment>, id: DefinitionId, a: int, b: int, k: int, j: int) -> bool {
    &&& before(a, b, k, j)
    &&& defines_at(frames, a, b, id)
    &&& forall|k2: int, j2: int| before(k2, j2, k, j) && #[trigger] defines_at(frames, k2, j2, id) ==> !before(a, b, k2, j2)
}

proof fn lemma_fragment_boundary(frames: Seq<Fragment>, id: DefinitionId, k: int, a: int, b: int)
    requires
        0 <= k < frames.len(),
    ensures
        unseen_before(frames, id, k, frames[k].definitions@.len() as int) == unseen_before(frames, id, k + 1, 0),
        last_before(frames, id, a, b, k, frames[k].definitions@.len() as int) == last_before(frames, id, a, b, k + 1, 0),
{
    let len = frames[k].definitions@.len() as int;
    assert forall|k2: int, j2: int| before(k2, j2, k + 1, 0) && !before(k2, j2, k, len) implies !defines_at(frames, k2, j2, id) by {
    }
    if last_before(frames, id, a, b, k, len) {
        assert forall|k2: int, j2: int| before(k2, j2, k + 1, 0) && #[trigger] defines_at(frames, k2, j2, id) implies !before(a, b, k2, j2) by {
            assert(before(k2, j2, k, len));
        }
    }
    if last_before(frames, id, a, b, k + 1, 0) {
        assert(defines_at(frames, a, b, id));
        assert(before(a, b, k, len));
    }
}

/// For every node, the position of the definition that the analysis keeps for it.
pub(crate) fn definition_positions(
    production: &[Fragment],
    tests: &[Fragment],
    index: &NodeIndex,
) -> (positions: Vec<Option<(usize, usize)>>)
    requires
        index.wf(),
        total_size(chain(production@, tests@)) < usize::MAX,
        forall|id: DefinitionId| mentions(chain(production@, tests@), id) ==> is_node(index.ids@, id),
    ensures
        positions@.len() == index.ids@.len(),
        forall|n: int| 0 <= n < positions@.len() ==> (#[trigger] positions@[n] is Some <==> is_defined(chain(production@, tests@), index.ids@[n])),
        forall|n: int| 0 <= n < positions@.len() && #[trigger] positions@[n] is Some ==> is_last_definition(
            chain(production@, tests@),
            index.ids@[n],
            (positions@[n]->0).0 as int,
            (positions@[n]->0).1 as int,
        ),
{
    let ghost frames = chain(production@, tests@);
    let ghost ids = index.ids@;
    proof {
        index.lemma_wf_distinct();
        lemma_total_size_counts_fragments(frames);
    }
    let node_count = index.ids.len();
    let mut positions: Vec<Option<(usize, usize)>> = Vec::new();
    while positions.len() < node_count
        invariant
            positions@.len() <= node_count,
            forall|n: int| 0 <= n < positions@.len() ==> positions@[n] is None,
        decreases node_count - positions@.len(),
    {
        positions.push(None);
    }
    let count = production.len() + tests.len();
    let mut k: usize = 0;
    while k < count
        invariant
            count == frames.len(),
            frames == chain(production@, tests@),
            ids == index.ids@,
            distinct_ids(ids),
            index.wf(),
            node_count == ids.len(),
            forall|id: DefinitionId| mentions(frames, id) ==> is_node(ids, id),
            k <= count,
            positions@.len() == node_count,
            forall|n: int| 0 <= n < node_count ==> (#[trigger] positions@[n] is None <==> unseen_before(frames, ids[n], k as int, 0)),
            forall|n: int| 0 <= n < node_count && #[trigger] positions@[n] is Some ==> last_before(frames, ids[n], (positions@[n]->0).0 as int, (positions@[n]->0).1 as int, k as int, 0),
        decreases count - k,
    {
        let fragment = fragment_at(production, tests, k);
        let mut j: usize = 0;
        while j < fragment.definitions.len()
            invariant
                count == frames.len(),
                frames == chain(production@, tests@),
                ids == index.ids@,
                distinct_ids(ids),
                index.wf(),
                node_count == ids.len(),
                forall|id: DefinitionId| mentions(frames, id) ==> is_node(ids, id),
                k < count,
                *fragment == frames[k as int],
                j <= fragment.definitions@.len(),
                positions@.len() == node_count,
                forall|n: int| 0 <= n < node_count ==> (#[trigger] positions@[n] is None <==> unseen_before(frames, ids[n], k as int, j as int)),
                forall|n: int| 0 <= n < node_count && #[trigger] positions@[n] is Some ==> last_before(frames, ids[n], (positions@[n]->0).0 as int, (positions@[n]->0).1 as int, k as int, j as int),
            decreases fragment.definitions@.len() - j,
        {
            let id = fragment.definitions[j].id;
            proof {
                assert(fragment_mentions(frames[k as int], id));
            }
            let node = index.lookup(id).unwrap();
            let ghost prior = positions@;
            positions.set(node, Some((k, j)));
            proof {
                assert(defines_at(frames, k as int, j as int, id));
                assert forall|n: int| 0 <= n < node_count implies (#[trigger] positions@[n] is None <==> unseen_before(frames, ids[n], k as int, j + 1)) by {
                    if n != node as int {
                        assert(ids[n] != ids[node as int]);
                        if prior[n] is None {
                            assert forall|k2: int, j2: int| before(k2, j2, k as int, j + 1) implies !#[trigger] defines_at(frames, k2, j2, ids[n]) by {
                                if !(k2 == k as int && j2 == j as int) {
                                    assert(before(k2, j2, k as int, j as int));
                                }
                            }
                        }
                    } else {
                        assert(!unseen_before(frames, ids[n], k as int, j + 1)) by {
                            assert(before(k as int, j as int, k as int, j + 1));
                        }
                    }
                }
                assert forall|n: int| 0 <= n < node_count && #[trigger] positions@[n] is Some implies last_before(frames, ids[n], (positions@[n]->0).0 as int, (positions@[n]->0).1 as int, k as int, j + 1) by {
                    if n != node as int {
                        assert(ids[n] != ids[node as int]);
                        let (a, b) = prior[n]->0;
                        assert forall|k2: int, j2: int| before(k2, j2, k as int, j + 1) && #[trigger] defines_at(frames, k2, j2, ids[n]) implies !before(a as int, b as int, k2, j2) by {
                            if !(k2 == k as int && j2 == j as int) {
                                assert(before(k2, j2, k as int, j as int));
                            }
                        }
                    }
                }
            }
            j = j + 1;
        }
        proof {
            assert forall|n: int| 0 <= n < node_count implies (#[trigger] positions@[n] is None <==> unseen_before(frames, ids[n], k + 1, 0)) by {
                lemma_fragment_boundary(frames, ids[n], k as int, 0, 0);
            }
            assert forall|n: int| 0 <= n < node_count && #[trigger] positions@[n] is Some implies last_before(frames, ids[n], (positions@[n]->0).0 as int, (positions@[n]->0).1 as int, k + 1, 0) by {
                lemma_fragment_boundary(frames, ids[n], k as int, (positions@[n]->0).0 as int, (positions@[n]->0).1 as int);
            }
        }
        k = k + 1;
    }
    proof {
        assert forall|n: int| 0 <= n < positions@.len() implies (#[trigger] positions@[n] is Some <==> is_defined(frames, ids[n])) by {
            if is_defined(frames, ids[n]) {
                let (k2, j2) = choose|k2: int, j2: int| #[trigger] defines_at(frames, k2, j2, ids[n]);
                assert(before(k2, j2, count as int, 0));
            }
            if positions@[n] is Some {
                let (a, b) = positions@[n]->0;
                assert(defines_at(frames, a as int, b as int, ids[n]));
            }
        }
        assert forall|n: int| 0 <= n < positions@.len() && #[trigger] positions@[n] is Some implies is_last_definition(frames, ids[n], (positions@[n]->0).0 as int, (positions@[n]->0).1 as int) by {
            let (a, b) = positions@[n]->0;
            assert forall|k2: int, j2: int| #[trigger] defines_at(frames, k2, j2, ids[n]) implies (k2 < a || (k2 == a && j2 <= b)) by {
                assert(before(k2, j2, count as int, 0));
            }
        }
    }
    positions
}

proof fn lemma_flat_edges_step(frames: Seq<Fragment>, k: int)
    requires
        0 <= k < frames.len(),
    ensures
        flat_edges(frames.take(k + 1)) == flat_edges(frames.take(k)) + frames[k].edges@,
{
    assert(frames.take(k + 1).drop_last() =~= frames.take(k));
}

/// The edges of a sequence of fragments, with their endpoints numbered.
pub(crate) fn number_edges(frames: &[Fragment], index: &NodeIndex) -> (refs: Vec<EdgeRef>)
    requires
        index.wf(),
        forall|k: int, j: int| 0 <= k < frames@.len() && 0 <= j < frames@[k].edges@.len() ==> is_node(index.ids@, (#[trigger] frames@[k].edges@[j]).from) && is_node(index.ids@, frames@[k].edges@[j].to),
    ensures
        numbers_edges(index.ids@, flat_edges(frames@), refs@),
{
    let ghost ids = index.ids@;
    let mut refs: Vec<EdgeRef> = Vec::new();
    let mut k: usize = 0;
    assert(frames@.take(0) =~= Seq::<Fragment>::empty());
    while k < frames.len()
        invariant
            ids == index.ids@,
            index.wf(),
            k <= frames@.len(),
            forall|k2: int, j: int| 0 <= k2 < frames@.len() && 0 <= j < frames@[k2].edges@.len() ==> is_node(ids, (#[trigger] frames@[k2].edges@[j]).from) && is_node(ids, frames@[k2].edges@[j].to),
            numbers_edges(ids, flat_edges(frames@.take(k as int)), refs@),
        decreases frames@.len() - k,
    {
        let fragment = &frames[k];
        let ghost base = flat_edges(frames@.take(k as int));
        let mut j: usize = 0;
        while j < fragment.edges.len()
            invariant
                ids == index.ids@,
                index.wf(),
                k < frames@.len(),
                *fragment == frames@[k as int],
                j <= fragment.edges@.len(),
                forall|k2: int, j2: int| 0 <= k2 < frames@.len() && 0 <= j2 < frames@[k2].edges@.len() ==> is_node(ids, (#[trigger] frames@[k2].edges@[j2]).from) && is_node(ids, frames@[k2].edges@[j2].to),
                numbers_edges(ids, base + fragment.edges@.take(j as int), refs@),
            decreases fragment.edges@.len() - j,
        {
            let edge = &fragment.edges[j];
            proof {
                assert(frames@[k as int].edges@[j as int] == *edge);
            }
            let from = index.lookup(edge.from).unwrap();
            let to = index.lookup(edge.to).unwrap();
            let ghost prior = refs@;
            refs.push(EdgeRef { from, to, kind: edge.kind });
            proof {
                assert(base + fragment.edges@.take(j + 1) =~= (base + fragment.edges@.take(j as int)).push(*edge));
                assert forall|i: int| 0 <= i < refs@.len() implies {
                    &&& (#[trigger] refs@[i]).from < ids.len()
                    &&& refs@[i].to < ids.len()
                    &&& ids[refs@[i].from as int] == (base + fragment.edges@.take(j + 1))[i].from
                    &&& ids[refs@[i].to as int] == (base + fragment.edges@.take(j + 1))[i].to
                    &&& refs@[i].kind == (base + fragment.edges@.take(j + 1))[i].kind
                } by {
                    if i < prior.len() {
                        assert(refs@[i] == prior[i]);
                    }
                }
            }
            j = j + 1;
        }
        proof {
            lemma_flat_edges_step(frames@, k as int);
            assert(fragment.edges@.take(fragment.edges@.len() as int) =~= fragment.edges@);
        }
        k = k + 1;
    }
    proof {
        assert(frames@.take(frames@.len() as int) =~= frames@);
    }
    refs
}

} // verus!
