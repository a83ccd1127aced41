//! Issuer / recipient indices: sets of (script hash, block number, tx hash).
use crate::table::Table;
use crate::types::{Digest, IndexEntry, WalletHashWithBn};
use vstd::prelude::*;

verus! {

/// The abstract member of an index.
pub type IndexItem = ((Seq<u8>, u32), Seq<u8>);

/// A set of index members: either the persisted index, or the in-memory
/// accumulator that `apply_tx` fills for one flush per block.
pub struct TxsIndex {
    pub(crate) table: Table<IndexEntry, ()>,
}

impl View for TxsIndex {
    type V = Set<IndexItem>;

    closed spec fn view(&self) -> Set<IndexItem> {
        self.table@.dom()
    }
}

impl TxsIndex {
    pub closed spec fn wf(&self) -> bool {
        self.table.wf()
    }

    pub fn new() -> (r: TxsIndex)
        ensures
            r.wf(),
            r@ == Set::<IndexItem>::empty(),
    {
        let r = TxsIndex { table: Table::new() };
        assert(r@ =~= Set::<IndexItem>::empty());
        r
    }

    /// Number of members.
    pub fn len(&self) -> (r: usize)
        requires
            self.wf(),
        ensures
            r == self@.len(),
    {
        self.table.len()
    }

    /// Whether `tx_hash` is recorded under `key`.
    pub fn contains(&self, key: &WalletHashWithBn, tx_hash: &Digest) -> (r: bool)
        requires
            self.wf(),
        ensures
            r == self@.contains((key@, tx_hash@)),
    {
        self.table.contains(&IndexEntry { key: *key, tx_hash: *tx_hash })
    }

    /// Records `tx_hash` under `key`.
    pub fn insert(&mut self, key: WalletHashWithBn, tx_hash: Digest)
        requires
            old(self).wf(),
        ensures
            final(self).wf(),
            final(self)@ == old(self)@.insert((key@, tx_hash@)),
    {
        self.table.upsert(IndexEntry { key, tx_hash }, ());
        assert(self@ =~= old(self)@.insert((key@, tx_hash@)));
    }

    /// Drops `tx_hash` from under `key`.
    pub fn remove(&mut self, key: WalletHashWithBn, tx_hash: Digest)
        requires
            old(self).wf(),
        ensures
            final(self).wf(),
            final(self)@ == old(self)@.remove((key@, tx_hash@)),
    {
        let _ = self.table.remove(&IndexEntry { key, tx_hash });
        assert(self@ =~= old(self)@.remove((key@, tx_hash@)));
    }

    /// Adds every member of `other`.
    pub fn extend(&mut self, other: &TxsIndex)
        requires
            old(self).wf(),
            other.wf(),
        ensures
            final(self).wf(),
            final(self)@ == old(self)@.union(other@),
    {
        let entries = other.table.entries();
        let mut i: usize = 0;
        while i < entries.len()
            invariant
                self.wf(),
                other.wf(),
                i <= entries@.len(),
                entries@.len() == other@.len(),
                forall|j: int| 0 <= j < entries@.len() ==> #[trigger] other@.contains(entries@[j].0@),
                self@ == old(self)@.union(Set::new(|x: IndexItem| exists|j: int| 0 <= j < i && entries@[j].0@ == x)),
                forall|x: IndexItem| #[trigger] other@.contains(x) ==> exists|j: int| 0 <= j < entries@.len() && entries@[j].0@ == x,
            decreases entries@.len() - i,
        {
            let e = entries[i].0;
            self.table.upsert(e, ());
            assert(self@ =~= old(self)@.union(Set::new(|x: IndexItem| exists|j: int| 0 <= j < i + 1 && entries@[j].0@ == x))) by {
                assert(entries@[i as int].0@ == e@);
            }
            i = i + 1;
        }
        assert(self@ =~= old(self)@.union(other@));
    }
}

} // verus!
