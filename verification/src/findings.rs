//! The findings of the analysis: which declarations are dead, test-only, or more visible
//! than their compiled uses require.

use vstd::prelude::*;
use crate::model::{Definition, DefinitionId, DefinitionKind, Edge, EdgeKind, Finding, FindingKind, FindingView, Fragment, IdentityView, identity_of};
use crate::frames::{chain, flat_edges, before};
use crate::nodes::{is_node, node_of, distinct_ids, lemma_node_of};
use crate::equivalence::liveness_equivalent;
use crate::reach::{has_edge, lists_of, well_formed};
use crate::graph::{Graph, graph_of, lemma_liveness_nodes, lemma_same_source_numbered};
use crate::publicity::reexport_in;

verus! {

/// `x` is the definition `id` or a liveness-equivalent copy of it.
pub open spec fn copy_of(frames: Seq<Fragment>, id: DefinitionId, x: DefinitionId) -> bool {
    x == id || liveness_equivalent(frames, id, x)
}

/// `definition` is live among the compilations whose edges are `edges` and whose reached
/// definitions are `reached`: one of its copies is reached or, for a re-export, re-exports a
/// reached definition.
pub open spec fn definition_live(frames: Seq<Fragment>, edges: Seq<Edge>, reached: spec_fn(DefinitionId) -> bool, definition: Definition) -> bool {
    if definition.kind == DefinitionKind::Reexport {
        exists|i: int, x: DefinitionId, to: DefinitionId| copy_of(frames, definition.id, x) && #[trigger] reexport_in(edges, i, x, to) && reached(to)
    } else {
        exists|x: DefinitionId| #[trigger] copy_of(frames, definition.id, x) && reached(x)
    }
}

/// The `p`-th node scanned for the copies of node `node`: the members of its liveness group,
/// or the node alone.
pub(crate) open spec fn member_at(graph: Graph, group: Option<usize>, node: usize, p: int) -> int {
    match group {
        Some(c) => graph.classes.members@[c as int]@[p] as int,
        None => node as int,
    }
}

/// Node `member` is reached, or, for re-exports, re-exports a reached node.
pub open spec fn member_hit(lists: Seq<Seq<usize>>, live: Seq<bool>, reexport: bool, member: int) -> bool {
    if reexport {
        exists|t: int| has_edge(lists, member, t) && #[trigger] live[t]
    } else {
        live[member]
    }
}

/// Whether `definition`, numbered `node`, is live: `live` marks the reached nodes and
/// `lists` the re-exports along `edges`.
pub(crate) fn is_live(
    production: &[Fragment],
    tests: &[Fragment],
    graph: &Graph,
    lists: &Vec<Vec<usize>>,
    live: &Vec<bool>,
    definition: &Definition,
    node: usize,
    Ghost(edges): Ghost<Seq<Edge>>,
    Ghost(reached): Ghost<spec_fn(DefinitionId) -> bool>,
) -> (result: bool)
    requires
        graph_of(production@, tests@, *graph),
        node < graph.index.ids@.len(),
        graph.index.ids@[node as int] == definition.id,
        lists@.len() == graph.index.ids@.len(),
        well_formed(lists_of(lists@)),
        forall|n: int, m: int| 0 <= n < graph.index.ids@.len() && 0 <= m < graph.index.ids@.len() ==> (#[trigger] has_edge(lists_of(lists@), n, m)
            <==> exists|i: int| #[trigger] reexport_in(edges, i, graph.index.ids@[n], graph.index.ids@[m])),
        forall|i: int, x: DefinitionId, to: DefinitionId| #[trigger] reexport_in(edges, i, x, to) ==> is_node(graph.index.ids@, x) && is_node(graph.index.ids@, to),
        live@.len() == graph.index.ids@.len(),
        forall|n: int| 0 <= n < live@.len() ==> (#[trigger] live@[n] <==> reached(graph.index.ids@[n])),
    ensures
        result == definition_live(chain(production@, tests@), edges, reached, *definition),
{
    let ghost frames = chain(production@, tests@);
    let ghost ids = graph.index.ids@;
    let ghost id = definition.id;
    let reexport = match definition.kind {
        DefinitionKind::Reexport => true,
        _ => false,
    };
    // The copies of the definition: itself, and the members of its group when they share liveness.
    let group: Option<usize> = match graph.classes.class_of[node] {
        Some(c) => if graph.shares[c] { Some(c) } else { None },
        None => None,
    };
    proof {
        assert forall|x: DefinitionId| #[trigger] copy_of(frames, id, x) implies is_node(ids, x) && (x == id || (group is Some && graph.classes.members@[group->0 as int]@.contains(node_of(ids, x) as usize))) by {
            if x != id {
                lemma_same_source_numbered(production@, tests@, *graph, id, x);
                let m = node_of(ids, x);
                lemma_liveness_nodes(production@, tests@, *graph, node as int, m);
                assert(graph.classes.class_of@[m] is Some);
            }
        }
    }
    let mut found = false;
    let count: usize = match group {
        Some(c) => graph.classes.members[c].len(),
        None => 1,
    };
    let mut q: usize = 0;
    while q < count
        invariant
            graph_of(production@, tests@, *graph),
            frames == chain(production@, tests@),
            ids == graph.index.ids@,
            node < ids.len(),
            ids[node as int] == id,
            lists@.len() == ids.len(),
            well_formed(lists_of(lists@)),
            live@.len() == ids.len(),
            group matches Some(c) ==> c < graph.classes.members@.len() && count == graph.classes.members@[c as int]@.len()
                && graph.classes.class_of@[node as int] == Some(c) && graph.shares@[c as int],
            group is None ==> count == 1,
            q <= count,
            found == exists|p: int| 0 <= p < q && #[trigger] member_hit(lists_of(lists@), live@, reexport, member_at(*graph, group, node, p)),
        decreases count - q,
    {
        let ghost found_before = found;
        let member = match group {
            Some(c) => graph.classes.members[c][q],
            None => node,
        };
        if reexport {
            let targets = &lists[member];
            let ghost list = lists_of(lists@)[member as int];
            let mut t: usize = 0;
            let mut hit = false;
            while t < targets.len()
                invariant
                    member < lists@.len(),
                    targets@ == list,
                    list == lists_of(lists@)[member as int],
                    well_formed(lists_of(lists@)),
                    live@.len() == lists@.len(),
                    t <= list.len(),
                    hit == exists|p: int| 0 <= p < t && #[trigger] live@[list[p] as int],
                decreases list.len() - t,
            {
                if live[targets[t]] {
                    hit = true;
                }
                t = t + 1;
            }
            proof {
                if hit {
                    let p = choose|p: int| 0 <= p < list.len() && #[trigger] live@[list[p] as int];
                    assert(has_edge(lists_of(lists@), member as int, list[p] as int));
                } else {
                    assert forall|t2: int| has_edge(lists_of(lists@), member as int, t2) implies !#[trigger] live@[t2] by {
                        let p = choose|p: int| 0 <= p < list.len() && #[trigger] list[p] as int == t2;
                        assert(!live@[list[p] as int]);
                    }
                }
            }
            if hit {
                found = true;
            }
        } else {
            if live[member] {
                found = true;
            }
        }
        proof {
            assert(member as int == member_at(*graph, group, node, q as int));
            assert(found == (found_before || member_hit(lists_of(lists@), live@, reexport, member as int)));
            if member_hit(lists_of(lists@), live@, reexport, member as int) {
                assert(member_hit(lists_of(lists@), live@, reexport, member_at(*graph, group, node, q as int)));
            }
        }
        q = q + 1;
    }
    proof {
        // Each copy is a member of the scanned list, and each member is a copy.
        assert forall|x: DefinitionId| #[trigger] copy_of(frames, id, x) implies exists|p: int| 0 <= p < count && ids[member_at(*graph, group, node, p)] == x by {
            if x == id && group is None {
                assert(ids[member_at(*graph, group, node, 0)] == x);
            } else {
                let c = group->0;
                let members = graph.classes.members@[c as int]@;
                let m = if x == id { node as int } else { node_of(ids, x) };
                if x == id {
                    assert(graph.classes.class_of@[node as int] is Some);
                }
                assert(members.contains(m as usize));
                let p = choose|p: int| 0 <= p < members.len() && members[p] == m as usize;
                assert(ids[member_at(*graph, group, node, p)] == x);
            }
        }
        assert forall|p: int| 0 <= p < count implies #[trigger] copy_of(frames, id, ids[member_at(*graph, group, node, p)]) && 0 <= member_at(*graph, group, node, p) < ids.len() by {
            if let Some(c) = group {
                let m = graph.classes.members@[c as int]@[p] as int;
                assert(graph.classes.class_of@[m] == Some(c));
                lemma_liveness_nodes(production@, tests@, *graph, node as int, m);
            }
        }
        if reexport {
            if found {
                let p = choose|p: int| 0 <= p < count && #[trigger] member_hit(lists_of(lists@), live@, reexport, member_at(*graph, group, node, p));
                let member = member_at(*graph, group, node, p);
                let t = choose|t: int| has_edge(lists_of(lists@), member, t) && #[trigger] live@[t];
                assert(0 <= t < ids.len()) by {
                    let r = choose|r: int| 0 <= r < lists_of(lists@)[member].len() && #[trigger] lists_of(lists@)[member][r] as int == t;
                }
                let i = choose|i: int| #[trigger] reexport_in(edges, i, ids[member], ids[t]);
                assert(copy_of(frames, id, ids[member]) && reexport_in(edges, i, ids[member], ids[t]) && reached(ids[t]));
            } else {
                assert forall|i: int, x: DefinitionId, to: DefinitionId| copy_of(frames, id, x) && #[trigger] reexport_in(edges, i, x, to) implies !reached(to) by {
                    let p = choose|p: int| 0 <= p < count && ids[member_at(*graph, group, node, p)] == x;
                    let member = member_at(*graph, group, node, p);
                    let t = node_of(ids, to);
                    assert(has_edge(lists_of(lists@), member, t));
                    assert(!member_hit(lists_of(lists@), live@, reexport, member));
                    assert(!live@[t]);
                }
            }
        } else {
            if found {
                let p = choose|p: int| 0 <= p < count && #[trigger] member_hit(lists_of(lists@), live@, reexport, member_at(*graph, group, node, p));
                assert(copy_of(frames, id, ids[member_at(*graph, group, node, p)]) && reached(ids[member_at(*graph, group, node, p)]));
            } else {
                assert forall|x: DefinitionId| #[trigger] copy_of(frames, id, x) implies !reached(x) by {
                    let p = choose|p: int| 0 <= p < count && ids[member_at(*graph, group, node, p)] == x;
                    assert(!member_hit(lists_of(lists@), live@, reexport, member_at(*graph, group, node, p)));
                }
            }
        }
    }
    found
}

/// Item `(k, j)`: definition `j` of fragment `k`.
pub open spec fn item_at(frames: Seq<Fragment>, k: int, j: int) -> bool {
    0 <= k < frames.len() && 0 <= j < frames[k].definitions@.len()
}

/// An item before `(k, j)` that passes `eligible` has the identity `identity`.
pub open spec fn seen_before(frames: Seq<Fragment>, eligible: spec_fn(Fragment, Definition) -> bool, k: int, j: int, identity: IdentityView) -> bool {
    exists|k2: int, j2: int| #[trigger] item_at(frames, k2, j2) && before(k2, j2, k, j)
        && eligible(frames[k2], frames[k2].definitions@[j2]) && identity_of(frames[k2].definitions@[j2]) == identity
}

/// Item `(k, j)` passes `eligible`, and no earlier item that does has its identity.
pub open spec fn first_eligible(frames: Seq<Fragment>, eligible: spec_fn(Fragment, Definition) -> bool, k: int, j: int) -> bool {
    eligible(frames[k], frames[k].definitions@[j]) && !seen_before(frames, eligible, k, j, identity_of(frames[k].definitions@[j]))
}

/// What item `(k, j)` contributes to a pass.
pub open spec fn pass_item(
    frames: Seq<Fragment>,
    eligible: spec_fn(Fragment, Definition) -> bool,
    emit: spec_fn(Fragment, Definition) -> Option<FindingView>,
    k: int,
    j: int,
) -> Seq<FindingView> {
    if first_eligible(frames, eligible, k, j) {
        match emit(frames[k], frames[k].definitions@[j]) {
            Some(finding) => seq![finding],
            None => Seq::empty(),
        }
    } else {
        Seq::empty()
    }
}

/// What the first `j` items of fragment `k` contribute to a pass.
pub open spec fn pass_within(
    frames: Seq<Fragment>,
    eligible: spec_fn(Fragment, Definition) -> bool,
    emit: spec_fn(Fragment, Definition) -> Option<FindingView>,
    k: int,
    j: int,
) -> Seq<FindingView>
    decreases j,
{
    if j <= 0 {
        Seq::empty()
    } else {
        pass_within(frames, eligible, emit, k, j - 1) + pass_item(frames, eligible, emit, k, j - 1)
    }
}

/// The findings of a pass over the first `k` fragments: for each identity, the first item
/// that passes `eligible`, turned into a finding by `emit`.
pub open spec fn pass_findings(
    frames: Seq<Fragment>,
    eligible: spec_fn(Fragment, Definition) -> bool,
    emit: spec_fn(Fragment, Definition) -> Option<FindingView>,
    k: int,
) -> Seq<FindingView>
    decreases k,
{
    if k <= 0 {
        Seq::empty()
    } else {
        pass_findings(frames, eligible, emit, k - 1) + pass_within(frames, eligible, emit, k - 1, frames[k - 1].definitions@.len() as int)
    }
}

/// The findings of a pass over all fragments.
pub open spec fn pass(
    frames: Seq<Fragment>,
    eligible: spec_fn(Fragment, Definition) -> bool,
    emit: spec_fn(Fragment, Definition) -> Option<FindingView>,
) -> Seq<FindingView> {
    pass_findings(frames, eligible, emit, frames.len() as int)
}

/// Some item of `frames` passes `eligible` and has `identity`.
pub open spec fn reported_in(frames: Seq<Fragment>, eligible: spec_fn(Fragment, Definition) -> bool, identity: IdentityView) -> bool {
    exists|k: int, j: int| #[trigger] item_at(frames, k, j) && eligible(frames[k], frames[k].definitions@[j]) && identity_of(frames[k].definitions@[j]) == identity
}

/// Stepping past item `(k, j)` adds its identity to the identities seen, if it is eligible.
pub proof fn lemma_seen_step(frames: Seq<Fragment>, eligible: spec_fn(Fragment, Definition) -> bool, k: int, j: int, identity: IdentityView)
    requires
        item_at(frames, k, j),
    ensures
        seen_before(frames, eligible, k, j + 1, identity) <==> (seen_before(frames, eligible, k, j, identity)
            || (eligible(frames[k], frames[k].definitions@[j]) && identity_of(frames[k].definitions@[j]) == identity)),
{
    if seen_before(frames, eligible, k, j + 1, identity) {
        let (k2, j2) = choose|k2: int, j2: int| #[trigger] item_at(frames, k2, j2) && before(k2, j2, k, j + 1)
            && eligible(frames[k2], frames[k2].definitions@[j2]) && identity_of(frames[k2].definitions@[j2]) == identity;
        if before(k2, j2, k, j) {
            assert(seen_before(frames, eligible, k, j, identity));
        }
    }
    if seen_before(frames, eligible, k, j, identity) {
        let (k2, j2) = choose|k2: int, j2: int| #[trigger] item_at(frames, k2, j2) && before(k2, j2, k, j)
            && eligible(frames[k2], frames[k2].definitions@[j2]) && identity_of(frames[k2].definitions@[j2]) == identity;
        assert(seen_before(frames, eligible, k, j + 1, identity));
    }
    if eligible(frames[k], frames[k].definitions@[j]) && identity_of(frames[k].definitions@[j]) == identity {
        assert(item_at(frames, k, j));
        assert(seen_before(frames, eligible, k, j + 1, identity));
    }
}

/// The items seen before the start of fragment `k + 1` are those seen before the end of fragment `k`.
pub proof fn lemma_seen_next_fragment(frames: Seq<Fragment>, eligible: spec_fn(Fragment, Definition) -> bool, k: int, identity: IdentityView)
    requires
        0 <= k < frames.len(),
    ensures
        seen_before(frames, eligible, k + 1, 0, identity) <==> seen_before(frames, eligible, k, frames[k].definitions@.len() as int, identity),
{
    if seen_before(frames, eligible, k + 1, 0, identity) {
        let (k2, j2) = choose|k2: int, j2: int| #[trigger] item_at(frames, k2, j2) && before(k2, j2, k + 1, 0)
            && eligible(frames[k2], frames[k2].definitions@[j2]) && identity_of(frames[k2].definitions@[j2]) == identity;
        assert(seen_before(frames, eligible, k, frames[k].definitions@.len() as int, identity));
    }
    if seen_before(frames, eligible, k, frames[k].definitions@.len() as int, identity) {
        let (k2, j2) = choose|k2: int, j2: int| #[trigger] item_at(frames, k2, j2) && before(k2, j2, k, frames[k].definitions@.len() as int)
            && eligible(frames[k2], frames[k2].definitions@[j2]) && identity_of(frames[k2].definitions@[j2]) == identity;
        assert(seen_before(frames, eligible, k + 1, 0, identity));
    }
}

/// Everything seen before the end is reported, and conversely.
pub proof fn lemma_seen_all(frames: Seq<Fragment>, eligible: spec_fn(Fragment, Definition) -> bool, identity: IdentityView)
    ensures
        seen_before(frames, eligible, frames.len() as int, 0, identity) <==> reported_in(frames, eligible, identity),
{
    if reported_in(frames, eligible, identity) {
        let (k, j) = choose|k: int, j: int| #[trigger] item_at(frames, k, j) && eligible(frames[k], frames[k].definitions@[j]) && identity_of(frames[k].definitions@[j]) == identity;
        assert(seen_before(frames, eligible, frames.len() as int, 0, identity));
    }
    if seen_before(frames, eligible, frames.len() as int, 0, identity) {
        let (k2, j2) = choose|k2: int, j2: int| #[trigger] item_at(frames, k2, j2) && before(k2, j2, frames.len() as int, 0)
            && eligible(frames[k2], frames[k2].definitions@[j2]) && identity_of(frames[k2].definitions@[j2]) == identity;
        assert(reported_in(frames, eligible, identity));
    }
}

/// Whether a finding is about a declaration outside the crate named `name`.
pub open spec fn outside_crate(name: Seq<char>) -> spec_fn(FindingView) -> bool {
    |finding: FindingView| finding.definition.crate_name@ != name
}

/// `narrowed` admits what `eligible` admits outside the crate named `name`, and `emit` reports a
/// declaration under its own crate.
pub open spec fn narrowed_to_other_crates(
    eligible: spec_fn(Fragment, Definition) -> bool,
    narrowed: spec_fn(Fragment, Definition) -> bool,
    emit: spec_fn(Fragment, Definition) -> Option<FindingView>,
    name: Seq<char>,
) -> bool {
    &&& forall|fragment: Fragment, definition: Definition| #[trigger] narrowed(fragment, definition) == (eligible(fragment, definition)
        && definition.crate_name@ != name)
    &&& forall|fragment: Fragment, definition: Definition| #[trigger] emit(fragment, definition) matches Some(finding)
        ==> finding.definition.crate_name@ == definition.crate_name@
}

proof fn lemma_item_without_crate(
    frames: Seq<Fragment>,
    eligible: spec_fn(Fragment, Definition) -> bool,
    narrowed: spec_fn(Fragment, Definition) -> bool,
    emit: spec_fn(Fragment, Definition) -> Option<FindingView>,
    name: Seq<char>,
    k: int,
    j: int,
)
    requires
        narrowed_to_other_crates(eligible, narrowed, emit, name),
        item_at(frames, k, j),
    ensures
        pass_item(frames, narrowed, emit, k, j) == pass_item(frames, eligible, emit, k, j).filter(outside_crate(name)),
{
    reveal(Seq::filter);
    let definition = frames[k].definitions@[j];
    let identity = identity_of(definition);
    let original = pass_item(frames, eligible, emit, k, j);
    assert(narrowed(frames[k], definition) == (eligible(frames[k], definition) && definition.crate_name@ != name));
    if definition.crate_name@ == name {
        if first_eligible(frames, eligible, k, j) {
            let emitted = emit(frames[k], definition);
            if let Some(finding) = emitted {
                assert(finding.definition.crate_name@ == definition.crate_name@);
                assert(original =~= seq![finding]);
                assert(original.drop_last() =~= Seq::<FindingView>::empty());
                assert(!outside_crate(name)(finding));
                assert(original.drop_last().filter(outside_crate(name)) =~= Seq::<FindingView>::empty());
                assert(original.filter(outside_crate(name)) =~= Seq::<FindingView>::empty());
            } else {
                assert(original =~= Seq::<FindingView>::empty());
                assert(original.filter(outside_crate(name)) =~= Seq::<FindingView>::empty());
            }
        } else {
            assert(original =~= Seq::<FindingView>::empty());
            assert(original.filter(outside_crate(name)) =~= Seq::<FindingView>::empty());
        }
    } else {
        assert(seen_before(frames, narrowed, k, j, identity) == seen_before(frames, eligible, k, j, identity)) by {
            if seen_before(frames, eligible, k, j, identity) {
                let (k2, j2) = choose|k2: int, j2: int| #[trigger] item_at(frames, k2, j2) && crate::frames::before(k2, j2, k, j)
                    && eligible(frames[k2], frames[k2].definitions@[j2]) && identity_of(frames[k2].definitions@[j2]) == identity;
                assert(narrowed(frames[k2], frames[k2].definitions@[j2]));
            }
            if seen_before(frames, narrowed, k, j, identity) {
                let (k2, j2) = choose|k2: int, j2: int| #[trigger] item_at(frames, k2, j2) && crate::frames::before(k2, j2, k, j)
                    && narrowed(frames[k2], frames[k2].definitions@[j2]) && identity_of(frames[k2].definitions@[j2]) == identity;
                assert(eligible(frames[k2], frames[k2].definitions@[j2]));
            }
        }
        if first_eligible(frames, eligible, k, j) {
            if let Some(finding) = emit(frames[k], definition) {
                assert(finding.definition.crate_name@ == definition.crate_name@);
                assert(seq![finding].drop_last() =~= Seq::<FindingView>::empty());
                assert(original.filter(outside_crate(name)) =~= seq![finding]);
            } else {
                assert(original.filter(outside_crate(name)) =~= Seq::<FindingView>::empty());
            }
        } else {
            assert(original.filter(outside_crate(name)) =~= Seq::<FindingView>::empty());
        }
    }
}

proof fn lemma_within_without_crate(
    frames: Seq<Fragment>,
    eligible: spec_fn(Fragment, Definition) -> bool,
    narrowed: spec_fn(Fragment, Definition) -> bool,
    emit: spec_fn(Fragment, Definition) -> Option<FindingView>,
    name: Seq<char>,
    k: int,
    j: int,
)
    requires
        narrowed_to_other_crates(eligible, narrowed, emit, name),
        0 <= k < frames.len(),
        0 <= j <= frames[k].definitions@.len(),
    ensures
        pass_within(frames, narrowed, emit, k, j) == pass_within(frames, eligible, emit, k, j).filter(outside_crate(name)),
    decreases j,
{
    reveal(Seq::filter);
    if j > 0 {
        lemma_within_without_crate(frames, eligible, narrowed, emit, name, k, j - 1);
        lemma_item_without_crate(frames, eligible, narrowed, emit, name, k, j - 1);
        Seq::filter_distributes_over_add(
            pass_within(frames, eligible, emit, k, j - 1),
            pass_item(frames, eligible, emit, k, j - 1),
            outside_crate(name),
        );
    }
}

/// A pass restricted to the declarations outside one crate reports exactly the pass's
/// findings outside that crate, in the same order.
pub proof fn lemma_pass_without_crate(
    frames: Seq<Fragment>,
    eligible: spec_fn(Fragment, Definition) -> bool,
    narrowed: spec_fn(Fragment, Definition) -> bool,
    emit: spec_fn(Fragment, Definition) -> Option<FindingView>,
    name: Seq<char>,
    k: int,
)
    requires
        narrowed_to_other_crates(eligible, narrowed, emit, name),
        0 <= k <= frames.len(),
    ensures
        pass_findings(frames, narrowed, emit, k) == pass_findings(frames, eligible, emit, k).filter(outside_crate(name)),
    decreases k,
{
    reveal(Seq::filter);
    if k > 0 {
        lemma_pass_without_crate(frames, eligible, narrowed, emit, name, k - 1);
        let n = frames[k - 1].definitions@.len() as int;
        lemma_within_without_crate(frames, eligible, narrowed, emit, name, k - 1, n);
        Seq::filter_distributes_over_add(
            pass_findings(frames, eligible, emit, k - 1),
            pass_within(frames, eligible, emit, k - 1, n),
            outside_crate(name),
        );
    }
}

/// Some item of `frames` is reported by `emit` as `finding`.
pub open spec fn emitted_by(frames: Seq<Fragment>, emit: spec_fn(Fragment, Definition) -> Option<FindingView>, finding: FindingView) -> bool {
    exists|k: int, j: int| #[trigger] item_at(frames, k, j) && emit(frames[k], frames[k].definitions@[j]) == Some(finding)
}

proof fn lemma_within_emits(
    frames: Seq<Fragment>,
    eligible: spec_fn(Fragment, Definition) -> bool,
    emit: spec_fn(Fragment, Definition) -> Option<FindingView>,
    k: int,
    j: int,
)
    requires
        0 <= k < frames.len(),
        0 <= j <= frames[k].definitions@.len(),
    ensures
        forall|i: int| 0 <= i < pass_within(frames, eligible, emit, k, j).len()
            ==> emitted_by(frames, emit, #[trigger] pass_within(frames, eligible, emit, k, j)[i]),
    decreases j,
{
    if j > 0 {
        lemma_within_emits(frames, eligible, emit, k, j - 1);
        let before = pass_within(frames, eligible, emit, k, j - 1);
        let item = pass_item(frames, eligible, emit, k, j - 1);
        let all = pass_within(frames, eligible, emit, k, j);
        assert forall|i: int| 0 <= i < all.len() implies emitted_by(frames, emit, #[trigger] all[i]) by {
            if i < before.len() {
                assert(all[i] == before[i]);
            } else {
                assert(item_at(frames, k, j - 1));
                assert(emit(frames[k], frames[k].definitions@[j - 1]) == Some(all[i]));
            }
        }
    }
}

/// Every finding of a pass is what `emit` reports for some item.
pub proof fn lemma_pass_emits(
    frames: Seq<Fragment>,
    eligible: spec_fn(Fragment, Definition) -> bool,
    emit: spec_fn(Fragment, Definition) -> Option<FindingView>,
    k: int,
)
    requires
        0 <= k <= frames.len(),
    ensures
        forall|i: int| 0 <= i < pass_findings(frames, eligible, emit, k).len()
            ==> emitted_by(frames, emit, #[trigger] pass_findings(frames, eligible, emit, k)[i]),
    decreases k,
{
    if k > 0 {
        lemma_pass_emits(frames, eligible, emit, k - 1);
        let n = frames[k - 1].definitions@.len() as int;
        lemma_within_emits(frames, eligible, emit, k - 1, n);
        let before = pass_findings(frames, eligible, emit, k - 1);
        let within = pass_within(frames, eligible, emit, k - 1, n);
        let all = pass_findings(frames, eligible, emit, k);
        assert forall|i: int| 0 <= i < all.len() implies emitted_by(frames, emit, #[trigger] all[i]) by {
            if i < before.len() {
                assert(all[i] == before[i]);
            } else {
                assert(all[i] == within[i - before.len()]);
            }
        }
    }
}

} // verus!
