//! Chunk rows of the files somebody asked about, and the way back from a bare
//! address to the file it was computed from.
use crate::chunks::{ChunkMap, ChunkMapView};
use crate::digest_map::DigestMap;
use crate::row_table::RowTable;
use vstd::prelude::*;

verus! {

/// The rows an origin has computed so far.
pub struct ChunkTable {
    rows: RowTable,
    slot_of_root: DigestMap<u32>,
    /// The slot and position an address was first computed from.
    slot_of_address: DigestMap<(u32, usize)>,
}

pub struct ChunkTableView {
    pub rows: Map<u32, ChunkMapView>,
    pub roots: Map<Seq<u8>, u32>,
    pub addresses: Map<Seq<u8>, (u32, usize)>,
}

impl View for ChunkTable {
    type V = ChunkTableView;

    closed spec fn view(&self) -> ChunkTableView {
        ChunkTableView {
            rows: self.rows@,
            roots: self.slot_of_root@,
            addresses: self.slot_of_address@,
        }
    }
}

/// What an address leads to: a position of a row that is there and that has the
/// address at that position.
pub open spec fn leads_home(t: ChunkTableView, address: Seq<u8>) -> bool {
    let (slot, position) = t.addresses[address];
    &&& t.rows.contains_key(slot)
    &&& position < t.rows[slot].leaves.len()
    &&& t.rows[slot].leaves[position as int] == address
}

/// What holds of every table: a root leads to a row that has it, and an address
/// to its place in a row.
pub open spec fn table_wf(t: ChunkTableView) -> bool {
    &&& forall|root: Seq<u8>| #[trigger]
        t.roots.contains_key(root) ==> t.rows.contains_key(t.roots[root])
            && t.rows[t.roots[root]].root == root
    &&& forall|address: Seq<u8>| #[trigger]
        t.addresses.contains_key(address) ==> leads_home(t, address)
}

/// Whether an address goes when a slot is forgotten: it stands in the slot's
/// row and leads there.
pub open spec fn goes_with(t: ChunkTableView, slot: u32, address: Seq<u8>) -> bool {
    t.rows[slot].leaves.contains(address) && t.addresses.contains_key(address)
        && t.addresses[address].0 == slot
}

/// A table without what was derived from one slot: its row, the root of that row,
/// and the addresses that lead there.
pub open spec fn forgotten(t: ChunkTableView, slot: u32) -> ChunkTableView {
    if t.rows.contains_key(slot) {
        ChunkTableView {
            rows: t.rows.remove(slot),
            roots: t.roots.remove(t.rows[slot].root),
            addresses: t.addresses.remove_keys(
                Set::new(|address: Seq<u8>| goes_with(t, slot, address)),
            ),
        }
    } else {
        t
    }
}

/// Addresses with the leaves of a row added, each at its first position; one
/// that is there already stays as it is.
pub open spec fn claimed(
    addresses: Map<Seq<u8>, (u32, usize)>,
    slot: u32,
    leaves: Seq<Seq<u8>>,
) -> Map<Seq<u8>, (u32, usize)>
    decreases leaves.len(),
{
    if leaves.len() == 0 {
        addresses
    } else {
        let front = claimed(addresses, slot, leaves.drop_last());
        if front.contains_key(leaves.last()) {
            front
        } else {
            front.insert(leaves.last(), (slot, (leaves.len() - 1) as usize))
        }
    }
}

/// A table with the row of one slot put in anew.
pub open spec fn with_row(t: ChunkTableView, slot: u32, row: ChunkMapView) -> ChunkTableView {
    let clean = forgotten(t, slot);
    ChunkTableView {
        rows: clean.rows.insert(slot, row),
        roots: clean.roots.insert(row.root, slot),
        addresses: claimed(clean.addresses, slot, row.leaves),
    }
}

proof fn lemma_claimed(
    addresses: Map<Seq<u8>, (u32, usize)>,
    slot: u32,
    leaves: Seq<Seq<u8>>,
    address: Seq<u8>,
)
    ensures
        claimed(addresses, slot, leaves).contains_key(address) <==> addresses.contains_key(address)
            || leaves.contains(address),
        addresses.contains_key(address) ==> claimed(addresses, slot, leaves)[address]
            == addresses[address],
        !addresses.contains_key(address) && leaves.contains(address) && leaves.len() <= usize::MAX
            ==> {
            let (s, p) = claimed(addresses, slot, leaves)[address];
            s == slot && p < leaves.len() && leaves[p as int] == address
        },
    decreases leaves.len(),
{
    if leaves.len() > 0 {
        let short = leaves.drop_last();
        lemma_claimed(addresses, slot, short, address);
        if short.contains(address) {
            let i = choose|i: int| 0 <= i < short.len() && short[i] == address;
            assert(leaves[i] == address);
        }
        if leaves.last() == address {
            assert(leaves[leaves.len() - 1] == address);
        }
        if leaves.contains(address) && leaves.last() != address {
            let i = choose|i: int| 0 <= i < leaves.len() && leaves[i] == address;
            assert(short[i] == address);
        }
    }
}

/// Forgetting a slot leaves a table in which everything still leads home.
pub proof fn law_forgetting_keeps_the_table_sound(t: ChunkTableView, slot: u32)
    requires
        table_wf(t),
    ensures
        table_wf(forgotten(t, slot)),
        !forgotten(t, slot).rows.contains_key(slot),
{
    let after = forgotten(t, slot);
    if t.rows.contains_key(slot) {
        assert forall|address: Seq<u8>| #[trigger] after.addresses.contains_key(address) implies
            leads_home(after, address) by {
            assert(t.addresses.contains_key(address));
            assert(leads_home(t, address));
            if t.addresses[address].0 == slot {
                assert(goes_with(t, slot, address));
            }
        }
        assert forall|root: Seq<u8>| #[trigger] after.roots.contains_key(root) implies
            after.rows.contains_key(after.roots[root]) && after.rows[after.roots[root]].root
            == root by {
            assert(t.roots.contains_key(root));
        }
    }
}

/// Putting a row in leaves a table in which everything leads home, and in which
/// the row is found by its root and each of its addresses leads somewhere.
pub proof fn law_inserting_keeps_the_table_sound(t: ChunkTableView, slot: u32, row: ChunkMapView)
    requires
        table_wf(t),
        row.leaves.len() <= usize::MAX,
    ensures
        table_wf(with_row(t, slot, row)),
        with_row(t, slot, row).roots[row.root] == slot,
        forall|address: Seq<u8>|
            row.leaves.contains(address) ==> #[trigger] with_row(
                t,
                slot,
                row,
            ).addresses.contains_key(address),
{
    law_forgetting_keeps_the_table_sound(t, slot);
    let clean = forgotten(t, slot);
    let after = with_row(t, slot, row);
    assert forall|address: Seq<u8>| #[trigger] after.addresses.contains_key(address) implies
        leads_home(after, address) by {
        lemma_claimed(clean.addresses, slot, row.leaves, address);
        if clean.addresses.contains_key(address) {
            assert(leads_home(clean, address));
        }
    }
    assert forall|address: Seq<u8>| row.leaves.contains(address) implies #[trigger]
        after.addresses.contains_key(address) by {
        lemma_claimed(clean.addresses, slot, row.leaves, address);
    }
    assert forall|root: Seq<u8>| #[trigger] after.roots.contains_key(root) implies
        after.rows.contains_key(after.roots[root]) && after.rows[after.roots[root]].root == root by {
        if root != row.root {
            assert(clean.roots.contains_key(root));
        }
    }
}

impl Default for ChunkTable {
    fn default() -> (out: Self)
        ensures
            out.wf(),
            table_wf(out@),
            out@.rows == Map::<u32, ChunkMapView>::empty(),
            out@.roots == Map::<Seq<u8>, u32>::empty(),
            out@.addresses == Map::<Seq<u8>, (u32, usize)>::empty(),
    {
        ChunkTable {
            rows: RowTable::new(),
            slot_of_root: DigestMap::new(),
            slot_of_address: DigestMap::new(),
        }
    }
}

impl ChunkTable {
    pub closed spec fn wf(&self) -> bool {
        &&& self.slot_of_root.wf()
        &&& self.slot_of_address.wf()
        &&& table_wf(self@)
    }

    /// The row of a slot.
    pub fn row(&self, slot: u32) -> (row: Option<&ChunkMap>)
        requires
            self.wf(),
        ensures
            match row {
                Some(r) => self@.rows.contains_key(slot) && r@ == self@.rows[slot],
                None => !self@.rows.contains_key(slot),
            },
    {
        self.rows.get(slot)
    }

    /// The slot a root was last computed for.
    pub fn slot_of(&self, root: &[u8; 32]) -> (slot: Option<u32>)
        requires
            self.wf(),
        ensures
            slot == (if self@.roots.contains_key(root@) {
                Some(self@.roots[root@])
            } else {
                None
            }),
    {
        self.slot_of_root.get(root)
    }

    /// The slot and position an address leads to.
    pub fn place_of(&self, address: &[u8; 32]) -> (place: Option<(u32, usize)>)
        requires
            self.wf(),
        ensures
            place == (if self@.addresses.contains_key(address@) {
                Some(self@.addresses[address@])
            } else {
                None
            }),
            place is Some ==> leads_home(self@, address@),
    {
        self.slot_of_address.get(address)
    }

    /// Forgets everything derived from a slot, because the file behind it moved.
    /// The row's root goes whichever slot it leads to. An address that leads to
    /// another slot stays: two files can share a chunk, and whichever claimed it
    /// first can still answer.
    pub fn forget(&mut self, slot: u32)
        requires
            old(self).wf(),
        ensures
            final(self).wf(),
            final(self)@ == forgotten(old(self)@, slot),
    {
        proof {
            law_forgetting_keeps_the_table_sound(self@, slot);
        }
        let ghost before = self@;
        let row = match self.rows.remove(slot) {
            None => {
                assert(self@.rows =~= before.rows);
                return ;
            },
            Some(row) => row,
        };
        self.slot_of_root.remove(&row.root);
        let ghost all = row@.leaves;
        let mut i: usize = 0;
        assert(self.slot_of_address@ =~= before.addresses.remove_keys(
            Set::new(|a: Seq<u8>| all.take(0).contains(a) && goes_with(before, slot, a)),
        ));
        while i < row.leaves.len()
            invariant
                0 <= i <= row.leaves@.len(),
                all == row@.leaves,
                all == before.rows[slot].leaves,
                self.slot_of_address.wf(),
                self.slot_of_root.wf(),
                self.rows@ == before.rows.remove(slot),
                self.slot_of_root@ == before.roots.remove(row@.root),
                self.slot_of_address@ == before.addresses.remove_keys(
                    Set::new(|a: Seq<u8>| all.take(i as int).contains(a) && goes_with(before, slot, a)),
                ),
            decreases row.leaves@.len() - i,
        {
            let ghost now = self.slot_of_address@;
            let address: [u8; 32] = row.leaves[i];
            assert(all[i as int] == address@);
            match self.slot_of_address.get(&address) {
                Some((owner, _)) => {
                    if owner == slot {
                        self.slot_of_address.remove(&address);
                    }
                },
                None => {},
            }
            proof {
                let short = all.take(i as int);
                let long = all.take(i as int + 1);
                assert(long =~= short.push(all[i as int]));
                assert forall|a: Seq<u8>| long.contains(a) == (short.contains(a) || a
                    == address@) by {
                    lemma_push_contains(short, all[i as int], a);
                }
                assert(all.contains(address@));
                let gone = Set::new(|a: Seq<u8>| long.contains(a) && goes_with(before, slot, a));
                assert(self.slot_of_address@ =~= before.addresses.remove_keys(gone));
            }
            i += 1;
        }
        proof {
            assert(all.take(i as int) =~= all);
            let want = forgotten(before, slot);
            assert(self@.addresses =~= want.addresses);
        }
    }

    /// Puts the row of a slot in anew.
    pub fn insert(&mut self, slot: u32, row: ChunkMap)
        requires
            old(self).wf(),
        ensures
            final(self).wf(),
            final(self)@ == with_row(old(self)@, slot, row@),
    {
        let ghost v = row@;
        let count: usize = row.leaves.len();
        proof {
            assert(v.leaves.len() == count);
            law_inserting_keeps_the_table_sound(self@, slot, v);
        }
        let ghost before = self@;
        self.forget(slot);
        let ghost clean = self@;
        self.slot_of_root.insert(&row.root, slot);
        let mut i: usize = 0;
        assert(v.leaves.take(0) =~= Seq::empty());
        while i < count
            invariant
                0 <= i <= count,
                count == row.leaves@.len(),
                v == row@,
                self.slot_of_address.wf(),
                self.slot_of_root.wf(),
                self.rows@ == clean.rows,
                self.slot_of_root@ == clean.roots.insert(v.root, slot),
                self.slot_of_address@ == claimed(clean.addresses, slot, v.leaves.take(i as int)),
            decreases count - i,
        {
            let address: [u8; 32] = row.leaves[i];
            assert(v.leaves.take(i as int + 1).drop_last() =~= v.leaves.take(i as int));
            assert(v.leaves.take(i as int + 1).last() == address@);
            if !self.slot_of_address.contains(&address) {
                self.slot_of_address.insert(&address, (slot, i));
            }
            i += 1;
        }
        assert(v.leaves.take(i as int) =~= v.leaves);
        self.rows.insert(slot, row);
    }
}

pub proof fn lemma_push_contains(s: Seq<Seq<u8>>, x: Seq<u8>, a: Seq<u8>)
    ensures
        s.push(x).contains(a) == (s.contains(a) || a == x),
{
    let long = s.push(x);
    if s.contains(a) {
        let i = choose|i: int| 0 <= i < s.len() && s[i] == a;
        assert(long[i] == a);
    }
    assert(long[s.len() as int] == x);
    if long.contains(a) {
        let i = choose|i: int| 0 <= i < long.len() && long[i] == a;
        if i < s.len() {
            assert(s[i] == a);
        }
    }
}

/// Forgetting a slot takes what was derived from it and nothing else: its row, the
/// root of the row, and those addresses of the row that lead to the slot.
pub proof fn law_forgetting_takes_only_the_slot(
    t: ChunkTableView,
    slot: u32,
    other: u32,
    root: Seq<u8>,
    address: Seq<u8>,
)
    ensures
        ({
            let after = forgotten(t, slot);
            &&& !after.rows.contains_key(slot)
            &&& other != slot ==> after.rows.contains_key(other) == t.rows.contains_key(other)
                && after.rows[other] == t.rows[other]
            &&& t.rows.contains_key(slot) ==> {
                &&& after.roots.contains_key(root) <==> t.roots.contains_key(root) && root
                    != t.rows[slot].root
                &&& after.roots.contains_key(root) ==> after.roots[root] == t.roots[root]
                &&& after.addresses.contains_key(address) <==> t.addresses.contains_key(address)
                    && !(t.addresses[address].0 == slot && exists|p: int|
                    0 <= p < t.rows[slot].leaves.len() && #[trigger] t.rows[slot].leaves[p]
                        == address)
                &&& after.addresses.contains_key(address) ==> after.addresses[address]
                    == t.addresses[address]
            }
            &&& !t.rows.contains_key(slot) ==> after == t
        }),
{
    if t.rows.contains_key(slot) && t.rows[slot].leaves.contains(address) {
        let p = choose|p: int|
            0 <= p < t.rows[slot].leaves.len() && t.rows[slot].leaves[p] == address;
        assert(t.rows[slot].leaves[p] == address);
    }
}

/// A row that is put in is found: by its slot, by its root, and by each of its
/// addresses, at the first place the row has it. An address that another row
/// claimed before stays with that one, and the other rows stay as they are.
pub proof fn law_a_row_is_found_by_all_it_has(
    t: ChunkTableView,
    slot: u32,
    row: ChunkMapView,
    other: u32,
    p: int,
)
    requires
        table_wf(t),
        row.leaves.len() <= usize::MAX,
    ensures
        ({
            let after = with_row(t, slot, row);
            &&& after.rows.contains_key(slot) && after.rows[slot] == row
            &&& other != slot ==> after.rows.contains_key(other) == t.rows.contains_key(other)
                && after.rows[other] == t.rows[other]
            &&& after.roots.contains_key(row.root) && after.roots[row.root] == slot
            &&& 0 <= p < row.leaves.len() ==> {
                let address = row.leaves[p];
                &&& after.addresses.contains_key(address)
                &&& (if t.addresses.contains_key(address) && t.addresses[address].0 != slot {
                    after.addresses[address] == t.addresses[address]
                } else {
                    &&& after.addresses[address].0 == slot
                    &&& after.addresses[address].1 <= p
                    &&& row.leaves[after.addresses[address].1 as int] == address
                })
            }
        }),
{
    if 0 <= p < row.leaves.len() {
        let address = row.leaves[p];
        let clean = forgotten(t, slot);
        lemma_claimed(clean.addresses, slot, row.leaves, address);
        assert(row.leaves.contains(address));
        if t.addresses.contains_key(address) {
            assert(leads_home(t, address));
            if t.addresses[address].0 == slot {
                let q = t.addresses[address].1;
                assert(t.rows[slot].leaves[q as int] == address);
                assert(t.rows[slot].leaves.contains(address));
                assert(goes_with(t, slot, address));
            }
        }
        if !clean.addresses.contains_key(address) {
            lemma_claimed_first(clean.addresses, slot, row.leaves, p);
        }
    }
}

proof fn lemma_claimed_first(
    addresses: Map<Seq<u8>, (u32, usize)>,
    slot: u32,
    leaves: Seq<Seq<u8>>,
    p: int,
)
    requires
        0 <= p < leaves.len() <= usize::MAX,
        !addresses.contains_key(leaves[p]),
    ensures
        claimed(addresses, slot, leaves)[leaves[p]].1 <= p,
    decreases leaves.len(),
{
    let short = leaves.drop_last();
    lemma_claimed(addresses, slot, short, leaves[p]);
    if p < short.len() {
        assert(short[p] == leaves[p]);
        assert(short.contains(leaves[p]));
        lemma_claimed_first(addresses, slot, short, p);
    } else if short.contains(leaves[p]) {
        let i = choose|i: int| 0 <= i < short.len() && short[i] == leaves[p];
        lemma_claimed_first(addresses, slot, short, i);
    }
}

} // verus!
