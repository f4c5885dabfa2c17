//! Dense node numbers for the definition identifiers of a workspace graph.

use vstd::prelude::*;
use crate::keys::{KeyIndex, KeyView, key_index_entries, texts_of, no_entries};
use crate::model::DefinitionId;

verus! {

/// The lookup key of a definition identifier.
pub open spec fn id_key(id: DefinitionId) -> KeyView {
    (Seq::<Seq<char>>::empty(), seq![id.stable_crate_id, id.local_hash])
}

/// `id` has a node number.
pub open spec fn is_node(ids: Seq<DefinitionId>, id: DefinitionId) -> bool {
    exists|n: int| 0 <= n < ids.len() && #[trigger] ids[n] == id
}

/// The node number of an identifier that has one.
pub open spec fn node_of(ids: Seq<DefinitionId>, id: DefinitionId) -> int {
    choose|n: int| 0 <= n < ids.len() && #[trigger] ids[n] == id
}

/// Every identifier has at most one node number.
pub open spec fn distinct_ids(ids: Seq<DefinitionId>) -> bool {
    forall|a: int, b: int| 0 <= a < ids.len() && 0 <= b < ids.len() && a != b ==> #[trigger] ids[a] != #[trigger] ids[b]
}

/// Numbers the identifiers of a graph in the order in which they are first seen.
pub(crate) struct NodeIndex {
    pub(crate) ids: Vec<DefinitionId>,
    pub(crate) table: KeyIndex,
}

pub proof fn lemma_id_key_injective(a: DefinitionId, b: DefinitionId)
    ensures
        id_key(a) == id_key(b) ==> a == b,
{
    if id_key(a) == id_key(b) {
        assert(id_key(a).1[0] == id_key(b).1[0]);
        assert(id_key(a).1[1] == id_key(b).1[1]);
    }
}

pub proof fn lemma_node_of(ids: Seq<DefinitionId>, n: int)
    requires
        distinct_ids(ids),
        0 <= n < ids.len(),
    ensures
        is_node(ids, ids[n]),
        node_of(ids, ids[n]) == n,
{
    assert(ids[n] == ids[n]);
}

fn key_parts(id: DefinitionId) -> (parts: (Vec<String>, Vec<u64>))
    ensures
        (texts_of(parts.0@), parts.1@) == id_key(id),
{
    let texts: Vec<String> = Vec::new();
    let numbers: Vec<u64> = vec![id.stable_crate_id, id.local_hash];
    assert(texts_of(texts@) =~= Seq::<Seq<char>>::empty());
    assert(numbers@ =~= seq![id.stable_crate_id, id.local_hash]);
    (texts, numbers)
}

impl NodeIndex {
    pub(crate) closed spec fn wf(&self) -> bool {
        &&& distinct_ids(self.ids@)
        &&& forall|n: int| 0 <= n < self.ids@.len() ==> #[trigger] key_index_entries(self.table).contains_key(id_key(self.ids@[n]))
            && key_index_entries(self.table)[id_key(self.ids@[n])] == n
        &&& forall|key: KeyView| #[trigger] key_index_entries(self.table).contains_key(key) ==> exists|n: int| 0 <= n < self.ids@.len() && key == id_key(#[trigger] self.ids@[n])
    }

    pub(crate) proof fn lemma_wf_distinct(&self)
        requires
            self.wf(),
        ensures
            distinct_ids(self.ids@),
    {
    }

    pub(crate) fn new() -> (index: Self)
        ensures
            index.wf(),
            index.ids@.len() == 0,
    {
        let index = NodeIndex { ids: Vec::new(), table: KeyIndex::new() };
        assert(key_index_entries(index.table) == no_entries());
        index
    }

    /// The node number of `id`, if it has one.
    pub(crate) fn lookup(&self, id: DefinitionId) -> (node: Option<usize>)
        requires
            self.wf(),
        ensures
            node is Some <==> is_node(self.ids@, id),
            node matches Some(n) ==> n < self.ids@.len() && self.ids@[n as int] == id,
    {
        let (texts, numbers) = key_parts(id);
        let found = self.table.get(&texts, &numbers);
        proof {
            if is_node(self.ids@, id) {
                let n = choose|n: int| 0 <= n < self.ids@.len() && #[trigger] self.ids@[n] == id;
                assert(key_index_entries(self.table).contains_key(id_key(self.ids@[n])));
            }
            if let Some(n) = found {
                let m = choose|m: int| 0 <= m < self.ids@.len() && id_key(id) == id_key(#[trigger] self.ids@[m]);
                lemma_id_key_injective(id, self.ids@[m]);
                assert(key_index_entries(self.table)[id_key(self.ids@[m])] == m);
            }
        }
        found
    }

    /// The node number of `id`, numbering it first if it has none.
    pub(crate) fn intern(&mut self, id: DefinitionId) -> (node: usize)
        requires
            old(self).wf(),
            old(self).ids@.len() < usize::MAX,
        ensures
            final(self).wf(),
            node < final(self).ids@.len(),
            final(self).ids@[node as int] == id,
            old(self).ids@.len() <= final(self).ids@.len() <= old(self).ids@.len() + 1,
            final(self).ids@.take(old(self).ids@.len() as int) == old(self).ids@,
            is_node(old(self).ids@, id) ==> final(self).ids@ == old(self).ids@,
            !is_node(old(self).ids@, id) ==> final(self).ids@ == old(self).ids@.push(id),
    {
        match self.lookup(id) {
            Some(n) => {
                proof {
                    assert(self.ids@.take(self.ids@.len() as int) =~= self.ids@);
                }
                n
            },
            None => {
                let n = self.ids.len();
                let ghost old_ids = self.ids@;
                let ghost old_entries = key_index_entries(self.table);
                let (texts, numbers) = key_parts(id);
                self.table.insert(texts, numbers, n);
                self.ids.push(id);
                proof {
                    assert(self.ids@.take(old_ids.len() as int) =~= old_ids);
                    assert forall|a: int, b: int| 0 <= a < self.ids@.len() && 0 <= b < self.ids@.len() && a != b implies #[trigger] self.ids@[a] != #[trigger] self.ids@[b] by {
                        if a == n as int {
                            assert(old_ids[b] == self.ids@[b]);
                        } else if b == n as int {
                            assert(old_ids[a] == self.ids@[a]);
                        } else {
                            assert(old_ids[a] == self.ids@[a] && old_ids[b] == self.ids@[b]);
                        }
                    }
                    assert forall|m: int| 0 <= m < self.ids@.len() implies #[trigger] key_index_entries(self.table).contains_key(id_key(self.ids@[m]))
                        && key_index_entries(self.table)[id_key(self.ids@[m])] == m by {
                        if m < n as int {
                            assert(self.ids@[m] == old_ids[m]);
                            assert(old_entries.contains_key(id_key(old_ids[m])));
                            lemma_id_key_injective(old_ids[m], id);
                        }
                    }
                    assert forall|key: KeyView| #[trigger] key_index_entries(self.table).contains_key(key) implies exists|m: int| 0 <= m < self.ids@.len() && key == id_key(#[trigger] self.ids@[m]) by {
                        if key == id_key(id) {
                            assert(self.ids@[n as int] == id);
                        } else {
                            assert(old_entries.contains_key(key));
                            let m = choose|m: int| 0 <= m < old_ids.len() && key == id_key(#[trigger] old_ids[m]);
                            assert(self.ids@[m] == old_ids[m]);
                        }
                    }
                }
                n
            },
        }
    }
}

} // verus!
