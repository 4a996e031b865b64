//! A file as a row of chunk addresses, and which of them a peer holds.
use crate::framing::arrays;
use crate::serving::{bit_set, lemma_bit_or, lemma_bit_zero};
use vstd::prelude::*;

verus! {

/// Bytes in every chunk of a file but its last, which is shorter.
pub const CHUNK_BYTES: u64 = 65_536;

/// The ordered chunk addresses of one file.
#[derive(Debug, Clone, PartialEq, Eq)]
pub struct ChunkMap {
    /// The address of the row itself. It commits to the size.
    pub root: [u8; 32],
    pub size: u64,
    pub leaves: Vec<[u8; 32]>,
}

pub struct ChunkMapView {
    pub root: Seq<u8>,
    pub size: u64,
    pub leaves: Seq<Seq<u8>>,
}

impl View for ChunkMap {
    type V = ChunkMapView;

    open spec fn view(&self) -> ChunkMapView {
        ChunkMapView { root: self.root@, size: self.size, leaves: arrays(self.leaves@) }
    }
}

/// Where a chunk starts in a file of `size` bytes.
pub open spec fn chunk_start(size: u64, position: int) -> int {
    if position * 65_536 < size {
        position * 65_536
    } else {
        size as int
    }
}

/// Where a chunk ends in a file of `size` bytes.
pub open spec fn chunk_end(size: u64, position: int) -> int {
    chunk_start(size, position + 1)
}

impl ChunkMap {
    /// How many chunks the file has.
    pub fn len(&self) -> (n: usize)
        ensures
            n == self@.leaves.len(),
    {
        self.leaves.len()
    }

    /// The chunk a byte stands in.
    pub fn index_at(&self, offset: u64) -> (position: u64)
        ensures
            position == offset / 65_536,
    {
        offset / 65_536
    }

    /// The address of a chunk; none past the end of the row.
    pub fn leaf(&self, position: u64) -> (address: Option<[u8; 32]>)
        ensures
            match address {
                Some(a) => position < self@.leaves.len() && a@ == self@.leaves[position as int],
                None => position >= self@.leaves.len(),
            },
    {
        if position < self.leaves.len() as u64 {
            Some(self.leaves[position as usize])
        } else {
            None
        }
    }

    /// The bytes of the file a chunk holds, as a half-open range.
    pub fn range_of(&self, position: u64) -> (range: (u64, u64))
        ensures
            range.0 == chunk_start(self.size, position as int),
            range.1 == chunk_end(self.size, position as int),
    {
        let start: u64 = if position <= self.size / 65_536 {
            position * 65_536
        } else {
            self.size
        };
        if self.size - start > 65_536 {
            (start, start + 65_536)
        } else {
            (start, self.size)
        }
    }

    /// The same row again.
    pub fn copy(&self) -> (out: Self)
        ensures
            out@ == self@,
    {
        let mut leaves: Vec<[u8; 32]> = Vec::new();
        let mut i: usize = 0;
        while i < self.leaves.len()
            invariant
                0 <= i <= self.leaves@.len(),
                leaves@ == self.leaves@.take(i as int),
            decreases self.leaves@.len() - i,
        {
            leaves.push(self.leaves[i]);
            assert(leaves@ =~= self.leaves@.take(i as int + 1));
            i += 1;
        }
        assert(leaves@ =~= self.leaves@);
        ChunkMap { root: self.root, size: self.size, leaves }
    }
}

/// The chunks tile the file: a byte stands in exactly the chunk its offset
/// names, and a chunk starts where the one before it ends.
pub proof fn law_chunks_tile_the_file(size: u64, offset: u64, position: int)
    requires
        offset < size,
        0 <= position,
    ensures
        (chunk_start(size, position) <= offset < chunk_end(size, position)) <==> position == offset
            / 65_536,
        chunk_start(size, 0) == 0,
        chunk_end(size, position) == chunk_start(size, position + 1),
        chunk_end(size, position) - chunk_start(size, position) <= CHUNK_BYTES,
{
}

/// How many chunks a coverage has.
pub open spec fn held_count(held: Seq<bool>) -> nat
    decreases held.len(),
{
    if held.len() == 0 {
        0
    } else if held.last() {
        held_count(held.drop_last()) + 1
    } else {
        held_count(held.drop_last())
    }
}

/// The low `k` bits of byte `b` of a packed coverage.
pub open spec fn packed_byte(held: Seq<bool>, b: int, k: int) -> u8
    decreases k,
{
    if k <= 0 {
        0
    } else if covers(held, 8 * b + k - 1) {
        packed_byte(held, b, k - 1) | (1u8 << ((k - 1) as u8))
    } else {
        packed_byte(held, b, k - 1)
    }
}

/// One bit per chunk, least significant first.
pub open spec fn packed(held: Seq<bool>) -> Seq<u8> {
    Seq::new(((held.len() + 7) / 8) as nat, |b: int| packed_byte(held, b, 8))
}

proof fn lemma_packed_byte(held: Seq<bool>, b: int, k: int, j: int)
    requires
        0 <= k <= 8,
        0 <= j < 8,
        b >= 0,
    ensures
        (packed_byte(held, b, k) & (1u8 << (j as u8)) != 0) == (j < k && covers(held, 8 * b + j)),
    decreases k,
{
    lemma_bit_zero(j as u8);
    if k > 0 {
        lemma_packed_byte(held, b, k - 1, j);
        lemma_bit_or(packed_byte(held, b, k - 1), (k - 1) as u8, j as u8);
    }
}

/// A packed coverage has the bit of a chunk set exactly where it has the chunk.
pub proof fn law_packed_bits_are_the_coverage(held: Seq<bool>, position: int)
    requires
        0 <= position,
    ensures
        bit_set(packed(held), position) == covers(held, position),
{
    let b = position / 8;
    if b < (held.len() + 7) / 8 {
        lemma_packed_byte(held, b, 8, position % 8);
    }
}

/// Which chunks of one file a peer holds.
#[derive(Debug, Clone, PartialEq, Eq)]
pub struct Coverage {
    held: Vec<bool>,
}

impl View for Coverage {
    type V = Seq<bool>;

    closed spec fn view(&self) -> Seq<bool> {
        self.held@
    }
}

/// Whether a coverage has a position. Past its end it has none.
pub open spec fn covers(coverage: Seq<bool>, position: int) -> bool {
    0 <= position < coverage.len() && coverage[position]
}

impl Coverage {
    /// A coverage of `len` chunks that has none of them.
    pub fn empty(len: usize) -> (out: Self)
        ensures
            out@ == Seq::new(len as nat, |i: int| false),
    {
        let mut held: Vec<bool> = Vec::new();
        let mut i: usize = 0;
        while i < len
            invariant
                0 <= i <= len,
                held@ == Seq::new(i as nat, |k: int| false),
            decreases len - i,
        {
            held.push(false);
            i += 1;
            assert(held@ =~= Seq::new(i as nat, |k: int| false));
        }
        Coverage { held }
    }

    /// Adds a position; one past the end is ignored.
    pub fn insert(&mut self, position: usize)
        ensures
            final(self)@ == (if position < old(self)@.len() {
                old(self)@.update(position as int, true)
            } else {
                old(self)@
            }),
    {
        if position < self.held.len() {
            self.held[position] = true;
        }
    }

    pub fn contains(&self, position: usize) -> (has: bool)
        ensures
            has == covers(self@, position as int),
    {
        position < self.held.len() && self.held[position]
    }

    /// How many chunks the file has.
    pub fn len(&self) -> (n: usize)
        ensures
            n == self@.len(),
    {
        self.held.len()
    }

    /// A coverage of `len` chunks that has all of them.
    pub fn complete(len: usize) -> (out: Self)
        ensures
            out@ == Seq::new(len as nat, |i: int| true),
    {
        let mut held: Vec<bool> = Vec::new();
        let mut i: usize = 0;
        while i < len
            invariant
                0 <= i <= len,
                held@ == Seq::new(i as nat, |k: int| true),
            decreases len - i,
        {
            held.push(true);
            i += 1;
            assert(held@ =~= Seq::new(i as nat, |k: int| true));
        }
        Coverage { held }
    }

    /// How many chunks are held.
    pub fn count(&self) -> (n: usize)
        ensures
            n == held_count(self@),
    {
        let mut n: usize = 0;
        let mut i: usize = 0;
        while i < self.held.len()
            invariant
                0 <= i <= self.held@.len(),
                n == held_count(self.held@.take(i as int)),
                n <= i,
            decreases self.held@.len() - i,
        {
            assert(self.held@.take(i as int + 1).drop_last() =~= self.held@.take(i as int));
            if self.held[i] {
                n += 1;
            }
            i += 1;
        }
        assert(self.held@.take(i as int) =~= self.held@);
        n
    }

    /// One bit per chunk, least significant first.
    pub fn as_bits(&self) -> (bits: Vec<u8>)
        ensures
            bits@ == packed(self@),
    {
        let total: usize = self.held.len();
        let n: usize = total / 8 + (if total % 8 == 0 {
            0
        } else {
            1
        });
        let mut bits: Vec<u8> = Vec::new();
        let mut b: usize = 0;
        while b < n
            invariant
                0 <= b <= n,
                total == self.held@.len(),
                n == (total + 7) / 8,
                bits@ == packed(self.held@).take(b as int),
            decreases n - b,
        {
            let mut byte: u8 = 0;
            let mut k: usize = 0;
            while k < 8
                invariant
                    0 <= k <= 8,
                    b < n,
                    total == self.held@.len(),
                    n == (total + 7) / 8,
                    byte == packed_byte(self.held@, b as int, k as int),
                decreases 8 - k,
            {
                if k < total - 8 * b && self.held[8 * b + k] {
                    byte = byte | (1u8 << (k as u8));
                }
                k += 1;
            }
            bits.push(byte);
            b += 1;
            assert(bits@ =~= packed(self.held@).take(b as int));
        }
        assert(bits@ =~= packed(self.held@));
        bits
    }
}

/// A coverage counts the chunks it has, and has a chunk exactly where it says so;
/// it has nothing past its end.
pub proof fn law_a_coverage_is_what_it_says(held: Seq<bool>, position: int)
    ensures
        held_count(held) == held.filter(|h: bool| h).len(),
        covers(held, position) <==> 0 <= position < held.len() && held[position],
    decreases held.len(),
{
    reveal(Seq::filter);
    if held.len() > 0 {
        law_a_coverage_is_what_it_says(held.drop_last(), position);
    }
}

/// A chunk is 64 KiB of its file, or what is left of it.
pub proof fn law_a_chunk_is_its_part_of_the_file(size: u64, position: int)
    requires
        0 <= position,
    ensures
        position * 65_536 < size ==> chunk_start(size, position) == position * 65_536,
        position * 65_536 >= size ==> chunk_start(size, position) == size,
        (position + 1) * 65_536 <= size ==> chunk_end(size, position) == (position + 1) * 65_536,
        (position + 1) * 65_536 > size ==> chunk_end(size, position) == size,
{
}

} // verus!
