//! Chunk rows by slot.
use crate::chunks::{ChunkMap, ChunkMapView};
use std::collections::BTreeMap;
use vstd::laws_cmp::group_laws_cmp;
use vstd::prelude::*;
use vstd::std_specs::btree::group_btree_axioms;
use vstd::std_specs::cmp::OrdSpec;
use vstd::std_specs::iter::IteratorSpec;

verus! {

broadcast use {group_btree_axioms, group_laws_cmp};

/// A row for each of some slots.
pub struct RowTable {
    rows: BTreeMap<u32, ChunkMap>,
}

impl View for RowTable {
    type V = Map<u32, ChunkMapView>;

    closed spec fn view(&self) -> Map<u32, ChunkMapView> {
        self.rows@.map_values(|row: ChunkMap| row@)
    }
}

/// A slot, the root of its row and how many chunks the row has: what it takes
/// to ask a store whether the slot is held in full.
#[derive(Debug, Clone, Copy, PartialEq, Eq)]
pub struct RowRef {
    pub slot: u32,
    pub root: [u8; 32],
    pub chunks: usize,
}

/// Whether a reference is to the row of its slot.
pub open spec fn refers_to(r: RowRef, rows: Map<u32, ChunkMapView>) -> bool {
    rows.contains_key(r.slot) && r.root@ == rows[r.slot].root && r.chunks
        == rows[r.slot].leaves.len()
}

impl RowTable {
    pub fn new() -> (out: Self)
        ensures
            out@ == Map::<u32, ChunkMapView>::empty(),
    {
        let out = RowTable { rows: BTreeMap::new() };
        assert(out@ =~= Map::<u32, ChunkMapView>::empty());
        out
    }

    /// The row of a slot.
    pub fn get(&self, slot: u32) -> (row: Option<&ChunkMap>)
        ensures
            match row {
                Some(r) => self@.contains_key(slot) && r@ == self@[slot],
                None => !self@.contains_key(slot),
            },
    {
        self.rows.get(&slot)
    }

    /// Sets the row of a slot.
    pub fn insert(&mut self, slot: u32, row: ChunkMap)
        ensures
            final(self)@ == old(self)@.insert(slot, row@),
    {
        let ghost v = row@;
        self.rows.insert(slot, row);
        assert(self@ =~= old(self)@.insert(slot, v));
    }

    /// Takes the row of a slot out.
    pub fn remove(&mut self, slot: u32) -> (row: Option<ChunkMap>)
        ensures
            final(self)@ == old(self)@.remove(slot),
            match row {
                Some(r) => old(self)@.contains_key(slot) && r@ == old(self)@[slot],
                None => !old(self)@.contains_key(slot),
            },
    {
        let row = self.rows.remove(&slot);
        assert(self@ =~= old(self)@.remove(slot));
        row
    }

    /// A reference to every row, by increasing slot.
    pub fn refs(&self) -> (out: Vec<RowRef>)
        ensures
            forall|i: int, j: int|
                0 <= i < j < out@.len() ==> (#[trigger] out@[i]).slot < (#[trigger] out@[j]).slot,
            forall|i: int| 0 <= i < out@.len() ==> refers_to(#[trigger] out@[i], self@),
            forall|slot: u32| #[trigger]
                self@.contains_key(slot) ==> exists|i: int|
                    0 <= i < out@.len() && (#[trigger] out@[i]).slot == slot,
    {
        let mut out: Vec<RowRef> = Vec::new();
        let rows = self.rows.iter();
        let ghost entries = rows.remaining();
        proof {
            let slots = entries.map_values(|entry: (&u32, &ChunkMap)| *entry.0);
            assert forall|i: int, j: int| 0 <= i < j < entries.len() implies *(
            #[trigger] entries[i]).0 < *(#[trigger] entries[j]).0 by {
                assert(slots[i].cmp_spec(&slots[j]) is Less);
            }
        }
        for (slot, row) in it: rows
            invariant
                it.seq() == entries,
                out@.len() == it.index(),
                forall|j: int|
                    0 <= j < it.index() ==> (#[trigger] out@[j]).slot == *entries[j].0
                        && out@[j].root@ == entries[j].1@.root && out@[j].chunks
                        == entries[j].1@.leaves.len(),
        {
            out.push(RowRef { slot: *slot, root: row.root, chunks: row.len() });
        }
        proof {
            assert forall|slot: u32| #[trigger] self@.contains_key(slot) implies exists|i: int|
                0 <= i < out@.len() && (#[trigger] out@[i]).slot == slot by {
                let entry = (&slot, &self.rows@[slot]);
                assert(entries.contains(entry));
                let i = choose|i: int| 0 <= i < entries.len() && entries[i] == entry;
                assert(out@[i].slot == slot);
            }
        }
        out
    }
}

} // verus!
