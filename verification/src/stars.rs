//! Stars that join groups of equivalent definitions, stated over identifiers.

use vstd::prelude::*;
use crate::model::DefinitionId;
use crate::nodes::{distinct_ids, is_node};
use crate::adjacency::{id_le, is_center, star_nodes};

verus! {

/// `member` is `a` or equivalent to it under `relation`.
pub open spec fn in_group_of(relation: spec_fn(DefinitionId, DefinitionId) -> bool, a: DefinitionId, member: DefinitionId) -> bool {
    member == a || relation(a, member)
}

/// `center` is the member of the group of `a` that passes `filter` and has the least identifier.
pub open spec fn id_center(
    relation: spec_fn(DefinitionId, DefinitionId) -> bool,
    filter: spec_fn(DefinitionId) -> bool,
    a: DefinitionId,
    center: DefinitionId,
) -> bool {
    &&& in_group_of(relation, a, center)
    &&& filter(center)
    &&& forall|member: DefinitionId| #[trigger] in_group_of(relation, a, member) && filter(member) ==> id_le(center, member)
}

/// The bidirectional star that joins the filtered members of each group through its center.
pub open spec fn star_edge(
    relation: spec_fn(DefinitionId, DefinitionId) -> bool,
    filter: spec_fn(DefinitionId) -> bool,
    a: DefinitionId,
    b: DefinitionId,
) -> bool {
    relation(a, b) && filter(a) && filter(b) && (id_center(relation, filter, a, a) || id_center(relation, filter, a, b))
}

/// The node stars over groups of nodes are the identifier stars over the groups of
/// identifiers they number.
pub proof fn lemma_star_correspondence(
    ids: Seq<DefinitionId>,
    groups: Seq<Vec<usize>>,
    class_of: Seq<Option<usize>>,
    enabled: Seq<bool>,
    filter: Seq<bool>,
    relation: spec_fn(DefinitionId, DefinitionId) -> bool,
    id_filter: spec_fn(DefinitionId) -> bool,
    n: int,
    m: int,
)
    requires
        distinct_ids(ids),
        ids.len() <= usize::MAX,
        filter.len() == ids.len(),
        class_of.len() == ids.len(),
        enabled.len() == groups.len(),
        groups.len() <= usize::MAX,
        0 <= n < ids.len(),
        0 <= m < ids.len(),
        forall|g: int, i: int| 0 <= g < groups.len() && 0 <= i < groups[g]@.len() ==> (#[trigger] groups[g]@[i]) < ids.len() && class_of[groups[g]@[i] as int] == Some(g as usize),
        forall|x: int| 0 <= x < ids.len() && #[trigger] class_of[x] is Some ==> class_of[x]->0 < groups.len() && groups[class_of[x]->0 as int]@.contains(x as usize),
        forall|x: int, y: int| 0 <= x < ids.len() && 0 <= y < ids.len() ==> (#[trigger] relation(ids[x], ids[y]) <==> (x != y && class_of[x] is Some && class_of[x] == class_of[y] && enabled[class_of[x]->0 as int])),
        forall|a: DefinitionId, b: DefinitionId| #[trigger] relation(a, b) ==> is_node(ids, a) && is_node(ids, b),
        forall|x: int| 0 <= x < ids.len() ==> filter[x] == id_filter(#[trigger] ids[x]),
    ensures
        star_nodes(ids, groups, enabled, filter, n, m) <==> star_edge(relation, id_filter, ids[n], ids[m]),
{
    // Each member of the group of ids[x] is the identifier of a node of x's group.
    assert forall|x: int, member: DefinitionId| 0 <= x < ids.len() && class_of[x] is Some && #[trigger] in_group_of(relation, ids[x], member)
        implies exists|y: int| 0 <= y < ids.len() && ids[y] == member && groups[class_of[x]->0 as int]@.contains(y as usize) by {
        if member == ids[x] {
            assert(ids[x] == member);
        } else {
            let y = choose|y: int| 0 <= y < ids.len() && #[trigger] ids[y] == member;
            assert(relation(ids[x], ids[y]));
        }
    }
    if star_nodes(ids, groups, enabled, filter, n, m) {
        let g = choose|g: int|
            0 <= g < groups.len() && enabled[g] && #[trigger] groups[g]@.contains(n as usize) && groups[g]@.contains(m as usize)
                && n != m && 0 <= n < filter.len() && 0 <= m < filter.len() && filter[n] && filter[m]
                && (is_center(ids, groups[g]@, filter, n) || is_center(ids, groups[g]@, filter, m));
        let i_n = choose|i: int| 0 <= i < groups[g]@.len() && groups[g]@[i] == n as usize;
        let i_m = choose|i: int| 0 <= i < groups[g]@.len() && groups[g]@[i] == m as usize;
        assert(class_of[n] == Some(g as usize));
        assert(class_of[m] == Some(g as usize));
        assert(relation(ids[n], ids[m]));
        let c = if is_center(ids, groups[g]@, filter, n) { n } else { m };
        assert(is_center(ids, groups[g]@, filter, c));
        let i_c = choose|i: int| 0 <= i < groups[g]@.len() && groups[g]@[i] == c as usize;
        assert(class_of[c] == Some(g as usize));
        assert(in_group_of(relation, ids[n], ids[c])) by {
            if c != n {
                assert(relation(ids[n], ids[c]));
            }
        }
        assert forall|member: DefinitionId| #[trigger] in_group_of(relation, ids[n], member) && id_filter(member) implies id_le(ids[c], member) by {
            let y = choose|y: int| 0 <= y < ids.len() && ids[y] == member && groups[class_of[n]->0 as int]@.contains(y as usize);
            let i = choose|i: int| 0 <= i < groups[g]@.len() && groups[g]@[i] == y as usize;
            assert(filter[y] == id_filter(ids[y]));
            assert(filter[groups[g]@[i] as int]);
        }
        assert(id_center(relation, id_filter, ids[n], ids[c]));
    }
    if star_edge(relation, id_filter, ids[n], ids[m]) {
        assert(relation(ids[n], ids[m]));
        let g = class_of[n]->0 as int;
        assert(groups[g]@.contains(n as usize));
        assert(groups[g]@.contains(m as usize));
        let c = if id_center(relation, id_filter, ids[n], ids[n]) { n } else { m };
        assert(id_center(relation, id_filter, ids[n], ids[c]));
        assert forall|i: int| 0 <= i < groups[g]@.len() && #[trigger] filter[groups[g]@[i] as int] implies id_le(ids[c], ids[groups[g]@[i] as int]) by {
            let y = groups[g]@[i] as int;
            assert(class_of[y] == Some(g as usize));
            if y != n {
                assert(relation(ids[n], ids[y]));
            }
            assert(in_group_of(relation, ids[n], ids[y]));
        }
        assert(is_center(ids, groups[g]@, filter, c));
    }
}

} // verus!
