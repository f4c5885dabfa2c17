//! Building adjacency lists from numbered edges and groups of equivalent definitions.

use vstd::prelude::*;
use crate::model::DefinitionId;
use crate::frames::EdgeRef;
use crate::reach::{has_edge, lists_of, well_formed};
use crate::nodes::distinct_ids;

verus! {

/// The order in which group centers are chosen: by the words of the identifier.
pub open spec fn id_le(a: DefinitionId, b: DefinitionId) -> bool {
    a.stable_crate_id < b.stable_crate_id || (a.stable_crate_id == b.stable_crate_id && a.local_hash <= b.local_hash)
}

pub fn id_less_or_equal(a: DefinitionId, b: DefinitionId) -> (le: bool)
    ensures
        le == id_le(a, b),
{
    a.stable_crate_id < b.stable_crate_id || (a.stable_crate_id == b.stable_crate_id && a.local_hash <= b.local_hash)
}

/// Node `c` is the filtered member of `members` with the least identifier.
pub open spec fn is_center(ids: Seq<DefinitionId>, members: Seq<usize>, filter: Seq<bool>, c: int) -> bool {
    &&& members.contains(c as usize)
    &&& 0 <= c < filter.len()
    &&& filter[c]
    &&& forall|i: int| 0 <= i < members.len() && #[trigger] filter[members[i] as int] ==> id_le(ids[c], ids[members[i] as int])
}

/// Nodes `n` and `m` are distinct filtered members of an enabled group, and one of them is
/// its center: the groups are joined by bidirectional stars.
pub open spec fn star_nodes(ids: Seq<DefinitionId>, groups: Seq<Vec<usize>>, enabled: Seq<bool>, filter: Seq<bool>, n: int, m: int) -> bool {
    exists|g: int|
        0 <= g < groups.len() && enabled[g] && #[trigger] groups[g]@.contains(n as usize) && groups[g]@.contains(m as usize)
            && n != m && 0 <= n < filter.len() && 0 <= m < filter.len() && filter[n] && filter[m]
            && (is_center(ids, groups[g]@, filter, n) || is_center(ids, groups[g]@, filter, m))
}

/// Nodes `n` and `m` are distinct filtered members of `members`, one of them its center.
pub open spec fn in_group(ids: Seq<DefinitionId>, members: Seq<usize>, filter: Seq<bool>, n: int, m: int) -> bool {
    members.contains(n as usize) && members.contains(m as usize)
        && n != m && 0 <= n < filter.len() && 0 <= m < filter.len() && filter[n] && filter[m]
        && (is_center(ids, members, filter, n) || is_center(ids, members, filter, m))
}

/// A group has at most one center.
pub proof fn lemma_center_unique(ids: Seq<DefinitionId>, members: Seq<usize>, filter: Seq<bool>, a: int, b: int)
    requires
        distinct_ids(ids),
        filter.len() <= usize::MAX,
        forall|i: int| 0 <= i < members.len() ==> (#[trigger] members[i]) < ids.len(),
        is_center(ids, members, filter, a),
        is_center(ids, members, filter, b),
    ensures
        a == b,
{
    let ia = choose|i: int| 0 <= i < members.len() && members[i] == a as usize;
    let ib = choose|i: int| 0 <= i < members.len() && members[i] == b as usize;
    assert(filter[members[ib] as int]);
    assert(filter[members[ia] as int]);
    assert(id_le(ids[a], ids[members[ib] as int]));
    assert(id_le(ids[b], ids[members[ia] as int]));
    assert(ids[a] == ids[b]);
}

/// Some kept edge leads from `n` to `m`.
pub open spec fn kept_edge(refs: Seq<EdgeRef>, keep: Seq<bool>, n: int, m: int) -> bool {
    exists|i: int| 0 <= i < refs.len() && keep[i] && #[trigger] refs[i].from as int == n && refs[i].to as int == m
}

fn push_edge(adjacency: &mut Vec<Vec<usize>>, from: usize, to: usize)
    requires
        from < old(adjacency)@.len(),
    ensures
        final(adjacency)@.len() == old(adjacency)@.len(),
        forall|a: int, b: int| #[trigger] has_edge(lists_of(final(adjacency)@), a, b) <==> (has_edge(lists_of(old(adjacency)@), a, b) || (a == from && b == to)),
{
    let ghost before = lists_of(adjacency@);
    let ghost list = adjacency@[from as int]@;
    adjacency[from].push(to);
    proof {
        let after = lists_of(adjacency@);
        assert(after[from as int] == list.push(to));
        assert forall|a: int, b: int| #[trigger] has_edge(after, a, b) <==> (has_edge(before, a, b) || (a == from && b == to)) by {
            if a == from as int {
                if has_edge(before, a, b) {
                    let i = choose|i: int| 0 <= i < before[a].len() && #[trigger] before[a][i] as int == b;
                    assert(after[a][i] == before[a][i]);
                }
                if b == to as int {
                    assert(after[a][list.len() as int] == to);
                }
                if has_edge(after, a, b) {
                    let i = choose|i: int| 0 <= i < after[a].len() && #[trigger] after[a][i] as int == b;
                    if i < list.len() {
                        assert(before[a][i] == after[a][i]);
                    }
                }
            } else if 0 <= a < after.len() {
                assert(after[a] == before[a]);
            }
        }
    }
}

/// Finds the center of a group: its filtered member with the least identifier.
fn group_center(ids: &Vec<DefinitionId>, members: &Vec<usize>, filter: &Vec<bool>) -> (center: Option<usize>)
    requires
        forall|i: int| 0 <= i < members@.len() ==> (#[trigger] members@[i]) < filter@.len() && members@[i] < ids@.len(),
        filter@.len() == ids@.len(),
    ensures
        center is None ==> forall|i: int| 0 <= i < members@.len() ==> !#[trigger] filter@[members@[i] as int],
        center matches Some(c) ==> is_center(ids@, members@, filter@, c as int),
{
    let mut best: Option<usize> = None;
    let mut i: usize = 0;
    while i < members.len()
        invariant
            i <= members@.len(),
            forall|j: int| 0 <= j < members@.len() ==> (#[trigger] members@[j]) < filter@.len() && members@[j] < ids@.len(),
            filter@.len() == ids@.len(),
            best is None ==> forall|j: int| 0 <= j < i ==> !#[trigger] filter@[members@[j] as int],
            best matches Some(c) ==> {
                &&& members@.contains(c)
                &&& c < filter@.len()
                &&& filter@[c as int]
                &&& forall|j: int| 0 <= j < i && #[trigger] filter@[members@[j] as int] ==> id_le(ids@[c as int], ids@[members@[j] as int])
            },
        decreases members@.len() - i,
    {
        let node = members[i];
        if filter[node] {
            match best {
                None => {
                    best = Some(node);
                },
                Some(c) => {
                    if !id_less_or_equal(ids[c], ids[node]) {
                        best = Some(node);
                        proof {
                            assert forall|j: int| 0 <= j < i + 1 && #[trigger] filter@[members@[j] as int] implies id_le(ids@[node as int], ids@[members@[j] as int]) by {
                                if j < i {
                                    assert(id_le(ids@[c as int], ids@[members@[j] as int]));
                                }
                            }
                        }
                    }
                },
            }
        }
        i = i + 1;
    }
    best
}

/// Adjacency lists holding the kept edges and, for each enabled group, a bidirectional
/// star that joins its filtered members through their center.
pub(crate) fn build_adjacency(
    ids: &Vec<DefinitionId>,
    refs: &Vec<EdgeRef>,
    keep: &Vec<bool>,
    groups: &Vec<Vec<usize>>,
    enabled: &Vec<bool>,
    filter: &Vec<bool>,
) -> (adjacency: Vec<Vec<usize>>)
    requires
        keep@.len() == refs@.len(),
        forall|i: int| 0 <= i < refs@.len() ==> (#[trigger] refs@[i]).from < ids@.len() && refs@[i].to < ids@.len(),
        enabled@.len() == groups@.len(),
        filter@.len() == ids@.len(),
        distinct_ids(ids@),
        forall|g: int, i: int| 0 <= g < groups@.len() && 0 <= i < groups@[g]@.len() ==> (#[trigger] groups@[g]@[i]) < ids@.len(),
    ensures
        adjacency@.len() == ids@.len(),
        well_formed(lists_of(adjacency@)),
        forall|n: int, m: int| #[trigger] has_edge(lists_of(adjacency@), n, m) <==> (kept_edge(refs@, keep@, n, m) || star_nodes(ids@, groups@, enabled@, filter@, n, m)),
{
    let node_count = ids.len();
    let mut adjacency: Vec<Vec<usize>> = Vec::new();
    while adjacency.len() < node_count
        invariant
            adjacency@.len() <= node_count,
            forall|n: int| 0 <= n < adjacency@.len() ==> (#[trigger] adjacency@[n])@.len() == 0,
        decreases node_count - adjacency@.len(),
    {
        adjacency.push(Vec::new());
    }
    proof {
        assert forall|n: int, m: int| !#[trigger] has_edge(lists_of(adjacency@), n, m) by {
            if 0 <= n < adjacency@.len() {
                assert(lists_of(adjacency@)[n].len() == 0);
            }
        }
    }
    let mut e: usize = 0;
    while e < refs.len()
        invariant
            node_count == ids@.len(),
            adjacency@.len() == node_count,
            keep@.len() == refs@.len(),
            forall|i: int| 0 <= i < refs@.len() ==> (#[trigger] refs@[i]).from < ids@.len() && refs@[i].to < ids@.len(),
            e <= refs@.len(),
            forall|n: int, m: int| #[trigger] has_edge(lists_of(adjacency@), n, m) <==> kept_edge(refs@.take(e as int), keep@.take(e as int), n, m),
        decreases refs@.len() - e,
    {
        let edge = refs[e];
        let ghost before = lists_of(adjacency@);
        if keep[e] {
            push_edge(&mut adjacency, edge.from, edge.to);
        }
        proof {
            assert forall|n: int, m: int| #[trigger] has_edge(lists_of(adjacency@), n, m) <==> kept_edge(refs@.take(e + 1), keep@.take(e + 1), n, m) by {
                if kept_edge(refs@.take(e as int), keep@.take(e as int), n, m) {
                    let i = choose|i: int| 0 <= i < refs@.take(e as int).len() && keep@.take(e as int)[i] && #[trigger] refs@.take(e as int)[i].from as int == n && refs@.take(e as int)[i].to as int == m;
                    assert(refs@.take(e + 1)[i] == refs@.take(e as int)[i]);
                    assert(keep@.take(e + 1)[i] == keep@.take(e as int)[i]);
                }
                if kept_edge(refs@.take(e + 1), keep@.take(e + 1), n, m) {
                    let i = choose|i: int| 0 <= i < refs@.take(e + 1).len() && keep@.take(e + 1)[i] && #[trigger] refs@.take(e + 1)[i].from as int == n && refs@.take(e + 1)[i].to as int == m;
                    if i < e {
                        assert(refs@.take(e + 1)[i] == refs@.take(e as int)[i]);
                        assert(keep@.take(e + 1)[i] == keep@.take(e as int)[i]);
                    }
                }
                if keep@[e as int] && n == edge.from && m == edge.to {
                    assert(refs@.take(e + 1)[e as int] == edge);
                }
            }
        }
        e = e + 1;
    }
    proof {
        assert(refs@.take(refs@.len() as int) =~= refs@);
        assert(keep@.take(keep@.len() as int) =~= keep@);
    }
    let mut g: usize = 0;
    while g < groups.len()
        invariant
            node_count == ids@.len(),
            adjacency@.len() == node_count,
            enabled@.len() == groups@.len(),
            filter@.len() == ids@.len(),
            distinct_ids(ids@),
            forall|g2: int, i: int| 0 <= g2 < groups@.len() && 0 <= i < groups@[g2]@.len() ==> (#[trigger] groups@[g2]@[i]) < ids@.len(),
            g <= groups@.len(),
            forall|n: int, m: int| #[trigger] has_edge(lists_of(adjacency@), n, m) <==> (kept_edge(refs@, keep@, n, m) || star_nodes(ids@, groups@.take(g as int), enabled@.take(g as int), filter@, n, m)),
        decreases groups@.len() - g,
    {
        let ghost before = lists_of(adjacency@);
        let members = &groups[g];
        if enabled[g] {
            match group_center(ids, members, filter) {
                None => {
                    proof {
                        assert forall|n: int, m: int| !in_group(ids@, members@, filter@, n, m) by {
                            if members@.contains(n as usize) {
                                let i = choose|i: int| 0 <= i < members@.len() && members@[i] == n as usize;
                                assert(!filter@[members@[i] as int]);
                            }
                        }
                    }
                },
                Some(center) => {
                    let mut i: usize = 0;
                    while i < members.len()
                        invariant
                            node_count == ids@.len(),
                            adjacency@.len() == node_count,
                            filter@.len() == ids@.len(),
                            members@ == groups@[g as int]@,
                            forall|j: int| 0 <= j < members@.len() ==> (#[trigger] members@[j]) < ids@.len(),
                            is_center(ids@, members@, filter@, center as int),
                            i <= members@.len(),
                            forall|n: int, m: int| #[trigger] has_edge(lists_of(adjacency@), n, m) <==> (has_edge(before, n, m) || (exists|j: int| 0 <= j < i && members@[j] != center && #[trigger] filter@[members@[j] as int] && ((n == center && m == members@[j] as int) || (n == members@[j] as int && m == center)))),
                        decreases members@.len() - i,
                    {
                        let target = members[i];
                        let ghost prior = lists_of(adjacency@);
                        if target != center && filter[target] {
                            push_edge(&mut adjacency, center, target);
                            push_edge(&mut adjacency, target, center);
                        }
                        proof {
                            assert forall|n: int, m: int| #[trigger] has_edge(lists_of(adjacency@), n, m) <==> (has_edge(before, n, m) || (exists|j: int| 0 <= j < i + 1 && members@[j] != center && #[trigger] filter@[members@[j] as int] && ((n == center && m == members@[j] as int) || (n == members@[j] as int && m == center)))) by {
                                if target != center && filter@[target as int] && ((n == center && m == target as int) || (n == target as int && m == center)) {
                                    assert(members@[i as int] == target);
                                }
                            }
                        }
                        i = i + 1;
                    }
                    proof {
                        assert forall|n: int, m: int| #[trigger] has_edge(lists_of(adjacency@), n, m) <==> (has_edge(before, n, m) || in_group(ids@, members@, filter@, n, m)) by {
                            let stars = exists|j: int| 0 <= j < members@.len() && members@[j] != center && #[trigger] filter@[members@[j] as int] && ((n == center && m == members@[j] as int) || (n == members@[j] as int && m == center));
                            if in_group(ids@, members@, filter@, n, m) {
                                if is_center(ids@, members@, filter@, n) {
                                    lemma_center_unique(ids@, members@, filter@, n, center as int);
                                    let j = choose|j: int| 0 <= j < members@.len() && members@[j] == m as usize;
                                    assert(members@[j] != center && filter@[members@[j] as int] && n == center && m == members@[j] as int);
                                } else {
                                    lemma_center_unique(ids@, members@, filter@, m, center as int);
                                    let j = choose|j: int| 0 <= j < members@.len() && members@[j] == n as usize;
                                    assert(members@[j] != center && filter@[members@[j] as int] && n == members@[j] as int && m == center);
                                }
                            }
                            if stars {
                                let j = choose|j: int| 0 <= j < members@.len() && members@[j] != center && #[trigger] filter@[members@[j] as int] && ((n == center && m == members@[j] as int) || (n == members@[j] as int && m == center));
                                assert(members@.contains(members@[j]));
                            }
                        }
                    }
                },
            }
        }
        proof {
            let groups_before = groups@.take(g as int);
            let groups_after = groups@.take(g + 1);
            let enabled_before = enabled@.take(g as int);
            let enabled_after = enabled@.take(g + 1);
            assert forall|n: int, m: int| #[trigger] has_edge(lists_of(adjacency@), n, m) <==> (kept_edge(refs@, keep@, n, m) || star_nodes(ids@, groups_after, enabled_after, filter@, n, m)) by {
                if star_nodes(ids@, groups_before, enabled_before, filter@, n, m) {
                    let g2 = choose|g2: int| 0 <= g2 < groups_before.len() && enabled_before[g2] && #[trigger] groups_before[g2]@.contains(n as usize) && groups_before[g2]@.contains(m as usize)
                        && n != m && 0 <= n < filter@.len() && 0 <= m < filter@.len() && filter@[n] && filter@[m]
                        && (is_center(ids@, groups_before[g2]@, filter@, n) || is_center(ids@, groups_before[g2]@, filter@, m));
                    assert(groups_after[g2] == groups_before[g2]);
                    assert(enabled_after[g2] == enabled_before[g2]);
                    assert(has_edge(before, n, m));
                }
                if star_nodes(ids@, groups_after, enabled_after, filter@, n, m) {
                    let g2 = choose|g2: int| 0 <= g2 < groups_after.len() && enabled_after[g2] && #[trigger] groups_after[g2]@.contains(n as usize) && groups_after[g2]@.contains(m as usize)
                        && n != m && 0 <= n < filter@.len() && 0 <= m < filter@.len() && filter@[n] && filter@[m]
                        && (is_center(ids@, groups_after[g2]@, filter@, n) || is_center(ids@, groups_after[g2]@, filter@, m));
                    if g2 < g {
                        assert(groups_after[g2] == groups_before[g2]);
                        assert(enabled_after[g2] == enabled_before[g2]);
                        assert(star_nodes(ids@, groups_before, enabled_before, filter@, n, m));
                    } else {
                        assert(groups_after[g2] == groups@[g as int]);
                        assert(enabled@[g as int]);
                        assert(in_group(ids@, members@, filter@, n, m));
                    }
                }
                if enabled@[g as int] && in_group(ids@, members@, filter@, n, m) {
                    assert(groups_after[g as int] == *members);
                    assert(star_nodes(ids@, groups_after, enabled_after, filter@, n, m));
                }
            }
        }
        g = g + 1;
    }
    proof {
        assert(groups@.take(groups@.len() as int) =~= groups@);
        assert(enabled@.take(enabled@.len() as int) =~= enabled@);
        assert forall|from: int, i: int| 0 <= from < adjacency@.len() && 0 <= i < lists_of(adjacency@)[from].len() implies #[trigger] lists_of(adjacency@)[from][i] < adjacency@.len() by {
            let to = lists_of(adjacency@)[from][i] as int;
            assert(has_edge(lists_of(adjacency@), from, to));
        }
    }
    adjacency
}

} // verus!
