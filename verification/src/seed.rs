//! Serving what a peer happens to hold of a share.
//!
//! - The origin's envelope is served verbatim: a seeder holds no key to sign
//!   another with.
//! - A partial holding is served. A gap is refused, never answered short,
//!   because a reader cannot tell a short answer from the end of the file.
//! - Answers are scoped to this share. The chunk store behind a seeder is
//!   shared, so only what this share's rows reach is ever asked of it.
use crate::chunk_table::lemma_push_contains;
use crate::chunks::{chunk_end, chunk_start, held_count, ChunkMap, ChunkMapView, Coverage};
use crate::codec::put_bytes;
use crate::digest_map::DigestMap;
use crate::framing::{MAX_READ_LEN, WATCH_FRAME_MANIFEST};
use crate::manifest::ReadStatus;
use crate::row_table::{refers_to, RowRef, RowTable};
use crate::text::bytes_eq;
use vstd::prelude::*;
use vstd::slice::{slice_subrange, slice_to_vec};

verus! {

/// What a peer can serve, once it holds something.
struct Holding {
    /// The origin's envelope, verbatim.
    envelope: Vec<u8>,
    /// Chunk rows of the slots this peer knows.
    rows: RowTable,
    /// The roots of those rows.
    roots: DigestMap<()>,
    /// Every address those rows reach.
    scope: DigestMap<()>,
}

/// A peer that serves from a chunk store.
pub struct Seeder {
    holding: Option<Holding>,
}

pub struct HoldingView {
    pub envelope: Seq<u8>,
    pub rows: Map<u32, ChunkMapView>,
}

/// Whether a row reaches an address: the address is in the share.
pub open spec fn in_scope(rows: Map<u32, ChunkMapView>, address: Seq<u8>) -> bool {
    exists|slot: u32| #[trigger] rows.contains_key(slot) && rows[slot].leaves.contains(address)
}

/// Whether a root is that of a row.
pub open spec fn has_root(rows: Map<u32, ChunkMapView>, root: Seq<u8>) -> bool {
    exists|slot: u32| #[trigger] rows.contains_key(slot) && rows[slot].root == root
}

impl Holding {
    spec fn wf(&self) -> bool {
        &&& self.roots.wf()
        &&& self.scope.wf()
        &&& indexes(self.rows@, self.roots@, self.scope@)
    }
}

/// Whether roots and addresses are exactly those of the rows.
spec fn indexes(
    rows: Map<u32, ChunkMapView>,
    roots: Map<Seq<u8>, ()>,
    scope: Map<Seq<u8>, ()>,
) -> bool {
    &&& forall|root: Seq<u8>| #[trigger] roots.contains_key(root) == has_root(rows, root)
    &&& forall|address: Seq<u8>| #[trigger] scope.contains_key(address) == in_scope(rows, address)
}

impl View for Holding {
    type V = HoldingView;

    closed spec fn view(&self) -> HoldingView {
        HoldingView {
            envelope: self.envelope@,
            rows: self.rows@,
        }
    }
}

impl View for Seeder {
    type V = Option<HoldingView>;

    closed spec fn view(&self) -> Option<HoldingView> {
        match self.holding {
            Some(holding) => Some(holding@),
            None => None,
        }
    }
}

impl Seeder {
    pub closed spec fn wf(&self) -> bool {
        self.holding matches Some(holding) ==> holding.wf()
    }
}

/// Adds a row's root and addresses.
fn put_row(roots: &mut DigestMap<()>, scope: &mut DigestMap<()>, row: &ChunkMap)
    requires
        old(roots).wf(),
        old(scope).wf(),
    ensures
        final(roots).wf(),
        final(scope).wf(),
        forall|root: Seq<u8>| #[trigger]
            final(roots)@.contains_key(root) == (old(roots)@.contains_key(root) || root
                == row@.root),
        forall|address: Seq<u8>| #[trigger]
            final(scope)@.contains_key(address) == (old(scope)@.contains_key(address)
                || row@.leaves.contains(address)),
{
    roots.insert(&row.root, ());
    let ghost was = scope@;
    let ghost all = row@.leaves;
    let mut i: usize = 0;
    while i < row.leaves.len()
        invariant
            0 <= i <= row.leaves@.len(),
            all == row@.leaves,
            scope.wf(),
            forall|address: Seq<u8>| #[trigger]
                scope@.contains_key(address) == (was.contains_key(address) || all.take(
                    i as int,
                ).contains(address)),
        decreases row.leaves@.len() - i,
    {
        let ghost before = scope@;
        scope.insert(&row.leaves[i], ());
        proof {
            let short = all.take(i as int);
            let long = all.take(i as int + 1);
            assert(long =~= short.push(all[i as int]));
            assert forall|address: Seq<u8>| #[trigger]
                scope@.contains_key(address) == (was.contains_key(address) || long.contains(
                    address,
                )) by {
                assert(before.contains_key(address) == (was.contains_key(address)
                    || short.contains(address)));
                lemma_push_contains(short, all[i as int], address);
            }
        }
        i += 1;
    }
    assert(all.take(i as int) =~= all);
}

/// The roots and the addresses of all rows.
fn index_rows(rows: &RowTable) -> (out: (DigestMap<()>, DigestMap<()>))
    ensures
        out.0.wf(),
        out.1.wf(),
        indexes(rows@, out.0@, out.1@),
{
    let mut roots: DigestMap<()> = DigestMap::new();
    let mut scope: DigestMap<()> = DigestMap::new();
    let refs = rows.refs();
    let mut i: usize = 0;
    while i < refs.len()
        invariant
            0 <= i <= refs@.len(),
            roots.wf(),
            scope.wf(),
            forall|k: int| 0 <= k < refs@.len() ==> refers_to(#[trigger] refs@[k], rows@),
            forall|root: Seq<u8>| #[trigger]
                roots@.contains_key(root) == (exists|k: int|
                    0 <= k < i && rows@[(#[trigger] refs@[k]).slot].root == root),
            forall|address: Seq<u8>| #[trigger]
                scope@.contains_key(address) == (exists|k: int|
                    0 <= k < i && rows@[(#[trigger] refs@[k]).slot].leaves.contains(address)),
        decreases refs@.len() - i,
    {
        assert(refers_to(refs@[i as int], rows@));
        let ghost before = (roots@, scope@);
        match rows.get(refs[i].slot) {
            None => {},
            Some(row) => put_row(&mut roots, &mut scope, row),
        }
        proof {
            let here = rows@[refs@[i as int].slot];
            assert forall|root: Seq<u8>| #[trigger]
                roots@.contains_key(root) == (exists|k: int|
                    0 <= k < i + 1 && rows@[(#[trigger] refs@[k]).slot].root == root) by {
                assert(roots@.contains_key(root) == (before.0.contains_key(root) || root
                    == here.root));
                if before.0.contains_key(root) {
                    let k = choose|k: int|
                        0 <= k < i && rows@[(#[trigger] refs@[k]).slot].root == root;
                    assert(rows@[refs@[k].slot].root == root);
                }
            }
            assert forall|address: Seq<u8>| #[trigger]
                scope@.contains_key(address) == (exists|k: int|
                    0 <= k < i + 1 && rows@[(#[trigger] refs@[k]).slot].leaves.contains(
                        address,
                    )) by {
                assert(scope@.contains_key(address) == (before.1.contains_key(address)
                    || here.leaves.contains(address)));
                if before.1.contains_key(address) {
                    let k = choose|k: int|
                        0 <= k < i && rows@[(#[trigger] refs@[k]).slot].leaves.contains(address);
                    assert(rows@[refs@[k].slot].leaves.contains(address));
                }
            }
        }
        i += 1;
    }
    proof {
        assert forall|root: Seq<u8>| #[trigger] roots@.contains_key(root) == has_root(
            rows@,
            root,
        ) by {
            if roots@.contains_key(root) {
                let k = choose|k: int|
                    0 <= k < refs@.len() && rows@[(#[trigger] refs@[k]).slot].root == root;
                assert(refers_to(refs@[k], rows@));
                assert(rows@.contains_key(refs@[k].slot));
            }
            if has_root(rows@, root) {
                let slot = choose|slot: u32| #[trigger]
                    rows@.contains_key(slot) && rows@[slot].root == root;
                let k = choose|k: int|
                    0 <= k < refs@.len() && (#[trigger] refs@[k]).slot == slot;
                assert(rows@[refs@[k].slot].root == root);
            }
        }
        assert forall|address: Seq<u8>| #[trigger] scope@.contains_key(address) == in_scope(
            rows@,
            address,
        ) by {
            if scope@.contains_key(address) {
                let k = choose|k: int|
                    0 <= k < refs@.len() && rows@[(#[trigger] refs@[k]).slot].leaves.contains(
                        address,
                    );
                assert(refers_to(refs@[k], rows@));
                assert(rows@.contains_key(refs@[k].slot));
            }
            if in_scope(rows@, address) {
                let slot = choose|slot: u32| #[trigger]
                    rows@.contains_key(slot) && rows@[slot].leaves.contains(address);
                let k = choose|k: int|
                    0 <= k < refs@.len() && (#[trigger] refs@[k]).slot == slot;
                assert(rows@[refs@[k].slot].leaves.contains(address));
            }
        }
    }
    (roots, scope)
}

/// Rows by slot, as they are handed over.
pub open spec fn row_views(rows: Seq<(u32, ChunkMap)>) -> Seq<(u32, ChunkMapView)> {
    Seq::new(rows.len(), |i: int| (rows[i].0, rows[i].1@))
}

/// The row each slot ends up with: the last one given for it.
pub open spec fn rows_map(rows: Seq<(u32, ChunkMapView)>) -> Map<u32, ChunkMapView>
    decreases rows.len(),
{
    if rows.len() == 0 {
        Map::empty()
    } else {
        rows_map(rows.drop_last()).insert(rows.last().0, rows.last().1)
    }
}

/// What a peer holds after it is given an envelope and rows.
pub open spec fn given(envelope: Seq<u8>, rows: Seq<(u32, ChunkMapView)>) -> HoldingView {
    HoldingView { envelope, rows: rows_map(rows) }
}

/// A watch frame that carries an envelope.
pub open spec fn manifest_frame(envelope: Seq<u8>) -> Seq<u8> {
    seq![WATCH_FRAME_MANIFEST] + envelope
}

/// A watch frame that carries an envelope.
pub fn frame_of(envelope: &[u8]) -> (frame: Vec<u8>)
    ensures
        frame@ == manifest_frame(envelope@),
{
    let mut frame: Vec<u8> = Vec::new();
    frame.push(WATCH_FRAME_MANIFEST);
    put_bytes(&mut frame, envelope);
    assert(frame@ =~= manifest_frame(envelope@));
    frame
}

/// Whether a coverage that came back shows a slot held in full. It is counted
/// against the row: a store that never heard of a root answers with an empty
/// coverage.
pub open spec fn is_full(r: RowRef, coverage: Seq<bool>) -> bool {
    held_count(coverage) == r.chunks
}

pub open spec fn coverage_views(s: Seq<Coverage>) -> Seq<Seq<bool>> {
    Seq::new(s.len(), |i: int| s[i]@)
}

/// The slots of `rows` that the coverages show held in full, in order.
pub open spec fn full_slots(rows: Seq<RowRef>, coverages: Seq<Seq<bool>>) -> Seq<u32>
    decreases rows.len(),
{
    if rows.len() == 0 {
        Seq::empty()
    } else {
        let rest = full_slots(rows.drop_last(), coverages);
        if rows.len() <= coverages.len() && is_full(rows.last(), coverages[rows.len() - 1]) {
            rest.push(rows.last().slot)
        } else {
            rest
        }
    }
}

/// A read under way: the bytes from `cursor` to `end` of a file are still to be
/// taken out of its chunks.
pub struct ReadJob {
    slot: u32,
    row: ChunkMap,
    cursor: u64,
    end: u64,
    out: Vec<u8>,
}

pub struct JobView {
    pub slot: u32,
    pub row: ChunkMapView,
    pub cursor: u64,
    pub end: u64,
    pub out: Seq<u8>,
}

impl View for ReadJob {
    type V = JobView;

    closed spec fn view(&self) -> JobView {
        JobView {
            slot: self.slot,
            row: self.row@,
            cursor: self.cursor,
            end: self.end,
            out: self.out@,
        }
    }
}

/// What a read comes to, or what it needs next.
pub enum ReadStep {
    /// The answer, and the slot to report where the read ran into a gap.
    Answer(ReadStatus, Vec<u8>, Option<u32>),
    /// The chunk at this address has to be fetched.
    Fetch([u8; 32], ReadJob),
}

pub enum StepView {
    Answer(ReadStatus, Seq<u8>, Option<u32>),
    Fetch(Seq<u8>, JobView),
}

impl View for ReadStep {
    type V = StepView;

    open spec fn view(&self) -> StepView {
        match *self {
            ReadStep::Answer(status, bytes, hole) => StepView::Answer(status, bytes@, hole),
            ReadStep::Fetch(address, job) => StepView::Fetch(address@, job@),
        }
    }
}

/// A refusal without a report.
pub open spec fn declined() -> StepView {
    StepView::Answer(ReadStatus::BadIndex, Seq::empty(), None)
}

/// A refusal that reports the slot: a promise that could not be kept.
pub open spec fn gap(slot: u32) -> StepView {
    StepView::Answer(ReadStatus::BadIndex, Seq::empty(), Some(slot))
}

/// What a read under way needs next.
pub open spec fn next_step(job: JobView) -> StepView {
    if job.cursor >= job.end {
        StepView::Answer(ReadStatus::Success, job.out, None)
    } else if job.cursor / 65_536 >= job.row.leaves.len() {
        gap(job.slot)
    } else {
        StepView::Fetch(job.row.leaves[(job.cursor / 65_536) as int], job)
    }
}

/// Where a read ends in a file of `size` bytes.
pub open spec fn read_end(size: u64, offset: u64, len: u32) -> u64 {
    if offset + len < size {
        (offset + len) as u64
    } else {
        size
    }
}

/// How a read of a slot begins.
pub open spec fn first_step(
    holding: Option<HoldingView>,
    slot: u32,
    offset: u64,
    len: u32,
) -> StepView {
    if len > MAX_READ_LEN {
        StepView::Answer(ReadStatus::LenOverCap, Seq::empty(), None)
    } else {
        match holding {
            None => declined(),
            Some(h) => if !h.rows.contains_key(slot) {
                declined()
            } else {
                let row = h.rows[slot];
                if offset >= row.size || len == 0 {
                    StepView::Answer(ReadStatus::Success, Seq::empty(), None)
                } else {
                    next_step(
                        JobView {
                            slot,
                            row,
                            cursor: offset,
                            end: read_end(row.size, offset, len),
                            out: Seq::empty(),
                        },
                    )
                }
            },
        }
    }
}

/// How far into its chunk a read stands.
pub open spec fn within(job: JobView) -> int {
    job.cursor - chunk_start(job.row.size, job.cursor as int / 65_536)
}

/// How many bytes of a fetched chunk a read takes.
pub open spec fn taken(job: JobView, chunk: Seq<u8>) -> int {
    let left = job.end - job.cursor;
    let there = chunk.len() - within(job);
    if there < 0 {
        0
    } else if there < left {
        there
    } else {
        left
    }
}

/// What a read comes to once the chunk it asked for is here. Without it the
/// whole read is refused.
pub open spec fn resumed(job: JobView, chunk: Option<Seq<u8>>) -> StepView {
    match chunk {
        None => gap(job.slot),
        Some(bytes) => if taken(job, bytes) == 0 {
            gap(job.slot)
        } else {
            next_step(
                JobView {
                    cursor: (job.cursor + taken(job, bytes)) as u64,
                    out: job.out + bytes.subrange(within(job), within(job) + taken(job, bytes)),
                    ..job
                },
            )
        },
    }
}

impl ReadJob {
    /// A read under way stands inside its file.
    pub closed spec fn wf(&self) -> bool {
        self.cursor < self.end && self.end <= self.row.size
    }

    fn next(self) -> (step: ReadStep)
        requires
            self.end <= self.row.size,
        ensures
            step@ == next_step(self@),
            step matches ReadStep::Fetch(_, job) ==> job.wf(),
    {
        if self.cursor >= self.end {
            return ReadStep::Answer(ReadStatus::Success, self.out, None);
        }
        let position: u64 = self.row.index_at(self.cursor);
        match self.row.leaf(position) {
            None => {
                let nothing: Vec<u8> = Vec::new();
                assert(nothing@ =~= Seq::<u8>::empty());
                ReadStep::Answer(ReadStatus::BadIndex, nothing, Some(self.slot))
            },
            Some(address) => ReadStep::Fetch(address, self),
        }
    }

    /// Goes on with the chunk that was asked for, or with word that it is not
    /// there.
    pub fn resume(self, chunk: Option<Vec<u8>>) -> (step: ReadStep)
        requires
            self.wf(),
        ensures
            step@ == resumed(
                self@,
                match chunk {
                    Some(bytes) => Some(bytes@),
                    None => None,
                },
            ),
            step matches ReadStep::Fetch(_, job) ==> job.wf(),
    {
        let nothing: Vec<u8> = Vec::new();
        assert(nothing@ =~= Seq::<u8>::empty());
        let bytes = match chunk {
            None => return ReadStep::Answer(ReadStatus::BadIndex, nothing, Some(self.slot)),
            Some(bytes) => bytes,
        };
        let position: u64 = self.row.index_at(self.cursor);
        let range: (u64, u64) = self.row.range_of(position);
        assert(range.0 == position * 65_536 && range.0 <= self.cursor);
        let into: u64 = self.cursor - range.0;
        assert(into == within(self@) && into < 65_536);
        let there: u64 = if bytes.len() as u64 <= into {
            0
        } else {
            bytes.len() as u64 - into
        };
        let left: u64 = self.end - self.cursor;
        let take: u64 = if there < left {
            there
        } else {
            left
        };
        if take == 0 {
            return ReadStep::Answer(ReadStatus::BadIndex, nothing, Some(self.slot));
        }
        let mut out = self.out;
        let piece = slice_subrange(bytes.as_slice(), into as usize, into as usize + take as usize);
        put_bytes(&mut out, piece);
        ReadJob {
            slot: self.slot,
            row: self.row,
            cursor: self.cursor + take,
            end: self.end,
            out,
        }.next()
    }
}

impl Default for Seeder {
    fn default() -> (out: Self)
        ensures
            out.wf(),
            out@ is None,
    {
        Seeder { holding: None }
    }
}

impl Seeder {
    /// A peer holding nothing, which refuses every request until told otherwise.
    #[must_use]
    pub fn new() -> (out: Self)
        ensures
            out.wf(),
            out@ is None,
    {
        Seeder { holding: None }
    }

    /// Takes up what this peer now knows: the origin's envelope and the chunk
    /// rows it has learned. Hands out a frame for the watchers where the
    /// envelope changed, and only there: holdings alter what a peer serves, not
    /// what the tree is.
    pub fn update(&mut self, envelope: Vec<u8>, rows: Vec<(u32, ChunkMap)>) -> (frame: Option<
        Vec<u8>,
    >)
        ensures
            final(self).wf(),
            final(self)@ == Some(given(envelope@, row_views(rows@))),
            match frame {
                Some(f) => f@ == manifest_frame(envelope@) && !(old(self)@ is Some && old(
                    self,
                )@->Some_0.envelope == envelope@),
                None => old(self)@ is Some && old(self)@->Some_0.envelope == envelope@,
            },
    {
        let ghost views = row_views(rows@);
        let mut kept = RowTable::new();
        assert(views.take(0) =~= Seq::empty());
        let mut i: usize = 0;
        while i < rows.len()
            invariant
                0 <= i <= rows@.len(),
                views == row_views(rows@),
                kept@ == rows_map(views.take(i as int)),
            decreases rows@.len() - i,
        {
            assert(views.take(i as int + 1).drop_last() =~= views.take(i as int));
            kept.insert(rows[i].0, rows[i].1.copy());
            i += 1;
        }
        assert(views.take(i as int) =~= views);
        let (roots, scope) = index_rows(&kept);
        let changed = match &self.holding {
            None => true,
            Some(holding) => !bytes_eq(holding.envelope.as_slice(), envelope.as_slice()),
        };
        let frame = if changed {
            Some(frame_of(envelope.as_slice()))
        } else {
            None
        };
        self.holding = Some(Holding { envelope, rows: kept, roots, scope });
        frame
    }

    /// Takes up one row, and leaves everything else as it stands. Called before
    /// the row's chunks are fetched, it makes each of them servable as it
    /// arrives. A row that stood in its slot is gone, and with it what only that
    /// row reached. Nothing happens before [`Self::update`]: there would be
    /// nothing to answer with.
    ///
    /// A row for a new slot costs that row; only a replaced one has the others
    /// gone through again.
    pub fn adopt(&mut self, slot: u32, row: &ChunkMap)
        requires
            old(self).wf(),
        ensures
            final(self).wf(),
            final(self)@ == (match old(self)@ {
                None => None,
                Some(h) => Some(
                    HoldingView { envelope: h.envelope, rows: h.rows.insert(slot, row@) },
                ),
            }),
    {
        match self.holding.take() {
            None => {},
            Some(mut holding) => {
                let ghost was = holding@.rows;
                let replaced = holding.rows.get(slot).is_some();
                holding.rows.insert(slot, row.copy());
                if replaced {
                    let (roots, scope) = index_rows(&holding.rows);
                    holding.roots = roots;
                    holding.scope = scope;
                } else {
                    put_row(&mut holding.roots, &mut holding.scope, row);
                    proof {
                        lemma_new_row(was, slot, row@);
                    }
                }
                self.holding = Some(holding);
            },
        }
    }

    /// Whether this peer holds anything at all for this share.
    #[must_use]
    pub fn is_armed(&self) -> (armed: bool)
        ensures
            armed == self@ is Some,
    {
        self.holding.is_some()
    }

    /// The origin's envelope, as it was handed over; none before the first
    /// [`Self::update`].
    #[must_use]
    pub fn manifest_envelope(&self) -> (envelope: Option<Vec<u8>>)
        ensures
            match envelope {
                Some(e) => self@ is Some && e@ == self@->Some_0.envelope,
                None => self@ is None,
            },
    {
        match &self.holding {
            None => None,
            Some(holding) => Some(slice_to_vec(holding.envelope.as_slice())),
        }
    }

    /// The opening frame of a new watcher; none before the first
    /// [`Self::update`].
    #[must_use]
    pub fn subscribe(&self) -> (opening: Option<Vec<u8>>)
        ensures
            match opening {
                Some(f) => self@ is Some && f@ == manifest_frame(self@->Some_0.envelope),
                None => self@ is None,
            },
    {
        match &self.holding {
            None => None,
            Some(holding) => Some(frame_of(holding.envelope.as_slice())),
        }
    }

    fn row_of(&self, slot: u32) -> (row: Option<&ChunkMap>)
        requires
            self.wf(),
        ensures
            match row {
                Some(r) => self@ is Some && self@->Some_0.rows.contains_key(slot) && r@
                    == self@->Some_0.rows[slot],
                None => self@ is None || !self@->Some_0.rows.contains_key(slot),
            },
    {
        match &self.holding {
            None => None,
            Some(holding) => holding.rows.get(slot),
        }
    }

    /// The row of a slot, for a reader that wants its addresses.
    #[must_use]
    pub fn answer_chunk_map(&self, slot: u32) -> (row: Option<ChunkMap>)
        requires
            self.wf(),
        ensures
            match row {
                Some(r) => self@ is Some && self@->Some_0.rows.contains_key(slot) && r@
                    == self@->Some_0.rows[slot],
                None => self@ is None || !self@->Some_0.rows.contains_key(slot),
            },
    {
        match self.row_of(slot) {
            None => None,
            Some(row) => Some(row.copy()),
        }
    }

    /// Whether the store may be asked for a chunk. An address this share does
    /// not reach is declined as one nobody holds is.
    #[must_use]
    pub fn answer_chunk(&self, address: &[u8; 32]) -> (ask: bool)
        requires
            self.wf(),
        ensures
            ask == (self@ is Some && in_scope(self@->Some_0.rows, address@)),
    {
        match &self.holding {
            None => false,
            Some(holding) => holding.scope.contains(address),
        }
    }

    /// Whether the store may be asked what it holds of a file.
    #[must_use]
    pub fn answer_have(&self, root: &[u8; 32]) -> (ask: bool)
        requires
            self.wf(),
        ensures
            ask == (self@ is Some && has_root(self@->Some_0.rows, root@)),
    {
        match &self.holding {
            None => false,
            Some(holding) => holding.roots.contains(root),
        }
    }

    /// Begins a read of a byte range.
    #[must_use]
    pub fn answer_read(&self, slot: u32, offset: u64, len: u32) -> (step: ReadStep)
        requires
            self.wf(),
        ensures
            step@ == first_step(self@, slot, offset, len),
            step matches ReadStep::Fetch(_, job) ==> job.wf(),
    {
        let nothing: Vec<u8> = Vec::new();
        assert(nothing@ =~= Seq::<u8>::empty());
        if len > MAX_READ_LEN {
            return ReadStep::Answer(ReadStatus::LenOverCap, nothing, None);
        }
        let row = match self.row_of(slot) {
            None => return ReadStep::Answer(ReadStatus::BadIndex, nothing, None),
            Some(row) => row.copy(),
        };
        if offset >= row.size || len == 0 {
            return ReadStep::Answer(ReadStatus::Success, nothing, None);
        }
        let end: u64 = if row.size - offset > len as u64 {
            offset + len as u64
        } else {
            row.size
        };
        ReadJob { slot, row, cursor: offset, end, out: nothing }.next()
    }

    /// A reference to the row of a slot.
    #[must_use]
    pub fn row_ref(&self, slot: u32) -> (out: Option<RowRef>)
        requires
            self.wf(),
        ensures
            match out {
                Some(r) => self@ is Some && r.slot == slot && refers_to(r, self@->Some_0.rows),
                None => self@ is None || !self@->Some_0.rows.contains_key(slot),
            },
    {
        match self.row_of(slot) {
            None => None,
            Some(row) => Some(RowRef { slot, root: row.root, chunks: row.len() }),
        }
    }

    /// A reference to every row, by increasing slot.
    #[must_use]
    pub fn row_refs(&self) -> (out: Vec<RowRef>)
        requires
            self.wf(),
        ensures
            self@ is None ==> out@.len() == 0,
            forall|i: int, j: int|
                0 <= i < j < out@.len() ==> (#[trigger] out@[i]).slot < (#[trigger] out@[j]).slot,
            self@ matches Some(h) ==> {
                &&& forall|i: int| 0 <= i < out@.len() ==> refers_to(#[trigger] out@[i], h.rows)
                &&& forall|slot: u32| #[trigger]
                    h.rows.contains_key(slot) ==> exists|i: int|
                        0 <= i < out@.len() && (#[trigger] out@[i]).slot == slot
            },
    {
        match &self.holding {
            None => Vec::new(),
            Some(holding) => holding.rows.refs(),
        }
    }

    /// Which slots are held in full, by the coverages a store gave for `rows`,
    /// one each and in order. A store that failed shows none.
    #[must_use]
    pub fn complete_slots(rows: &[RowRef], coverages: Option<&[Coverage]>) -> (slots: Vec<u32>)
        ensures
            slots@ == (match coverages {
                Some(c) => full_slots(rows@, coverage_views(c@)),
                None => Seq::empty(),
            }),
    {
        let mut slots: Vec<u32> = Vec::new();
        let coverages = match coverages {
            None => {
                assert(slots@ =~= Seq::<u32>::empty());
                return slots;
            },
            Some(coverages) => coverages,
        };
        let ghost views = coverage_views(coverages@);
        let mut i: usize = 0;
        assert(rows@.take(0) =~= Seq::empty());
        while i < rows.len()
            invariant
                0 <= i <= rows@.len(),
                views == coverage_views(coverages@),
                slots@ == full_slots(rows@.take(i as int), views),
            decreases rows@.len() - i,
        {
            assert(rows@.take(i as int + 1).drop_last() =~= rows@.take(i as int));
            if i < coverages.len() && coverages[i].count() == rows[i].chunks {
                slots.push(rows[i].slot);
            }
            i += 1;
        }
        assert(rows@.take(i as int) =~= rows@);
        slots
    }

    /// Whether one slot is still held in full, by the coverage a store gave for
    /// its row.
    #[must_use]
    pub fn holds(row: Option<RowRef>, coverage: Option<&Coverage>) -> (held: bool)
        ensures
            held == (row is Some && coverage is Some && is_full(row->Some_0, coverage->Some_0@)),
    {
        match (row, coverage) {
            (Some(row), Some(coverage)) => coverage.count() == row.chunks,
            _ => false,
        }
    }
}

/// What a read comes to against a store that does not change while it runs.
pub open spec fn read_from(store: Map<Seq<u8>, Seq<u8>>, step: StepView) -> StepView
    decreases
        (match step {
            StepView::Fetch(_, job) => job.end - job.cursor + 1,
            _ => 0,
        }),
{
    match step {
        StepView::Fetch(address, job) => {
            let after = resumed(
                job,
                if store.contains_key(address) {
                    Some(store[address])
                } else {
                    None
                },
            );
            match after {
                StepView::Fetch(_, later) => if job.cursor < later.cursor && later.end == job.end
                    && later.cursor < later.end {
                    read_from(store, after)
                } else {
                    after
                },
                _ => after,
            }
        },
        _ => step,
    }
}

/// Whether a store holds every chunk of a file under the addresses of its row.
pub open spec fn stores_file(
    store: Map<Seq<u8>, Seq<u8>>,
    row: ChunkMapView,
    content: Seq<u8>,
) -> bool {
    &&& content.len() == row.size
    &&& row.leaves.len() * 65_536 >= row.size
    &&& forall|p: int|
        0 <= p < row.leaves.len() ==> store.contains_key(#[trigger] row.leaves[p])
            && store[row.leaves[p]] == content.subrange(
            chunk_start(row.size, p),
            chunk_end(row.size, p),
        )
}

proof fn lemma_read_runs(
    store: Map<Seq<u8>, Seq<u8>>,
    job: JobView,
    content: Seq<u8>,
    offset: u64,
)
    requires
        stores_file(store, job.row, content),
        offset <= job.cursor <= job.end <= job.row.size,
        job.out == content.subrange(offset as int, job.cursor as int),
    ensures
        read_from(store, next_step(job)) == StepView::Answer(
            ReadStatus::Success,
            content.subrange(offset as int, job.end as int),
            None,
        ),
    decreases job.end - job.cursor,
{
    if job.cursor < job.end {
        let p = job.cursor as int / 65_536;
        let size = job.row.size;
        let chunk = store[job.row.leaves[p]];
        assert(p < job.row.leaves.len());
        assert(store.contains_key(job.row.leaves[p]));
        let n = taken(job, chunk);
        assert(chunk_start(size, p) <= job.cursor < chunk_end(size, p));
        assert(0 < n && job.cursor + n <= job.end);
        let later = JobView {
            cursor: (job.cursor + n) as u64,
            out: job.out + chunk.subrange(within(job), within(job) + n),
            ..job
        };
        assert(chunk.subrange(within(job), within(job) + n) =~= content.subrange(
            job.cursor as int,
            job.cursor + n,
        ));
        assert(later.out =~= content.subrange(offset as int, later.cursor as int));
        lemma_read_runs(store, later, content, offset);
    }
}

/// A file held in full reads as itself: every range is answered with exactly
/// its bytes.
pub proof fn law_a_full_holding_reads_as_the_file(
    store: Map<Seq<u8>, Seq<u8>>,
    h: HoldingView,
    slot: u32,
    content: Seq<u8>,
    offset: u64,
    len: u32,
)
    requires
        h.rows.contains_key(slot),
        stores_file(store, h.rows[slot], content),
        len <= MAX_READ_LEN,
    ensures
        read_from(store, first_step(Some(h), slot, offset, len)) == StepView::Answer(
            ReadStatus::Success,
            if offset >= content.len() {
                Seq::empty()
            } else {
                content.subrange(offset as int, read_end(h.rows[slot].size, offset, len) as int)
            },
            None,
        ),
{
    let row = h.rows[slot];
    if offset < row.size {
        let end = read_end(row.size, offset, len);
        let job = JobView { slot, row, cursor: offset, end, out: Seq::empty() };
        if len == 0 {
            assert(content.subrange(offset as int, end as int) =~= Seq::empty());
        } else {
            assert(job.out =~= content.subrange(offset as int, offset as int));
            lemma_read_runs(store, job, content, offset);
        }
    }
}

/// Whether a row has no chunk at a position, or a store does not hold it.
pub open spec fn lacks(store: Map<Seq<u8>, Seq<u8>>, row: ChunkMapView, position: int) -> bool {
    position >= row.leaves.len() || !store.contains_key(row.leaves[position])
}

proof fn lemma_read_stops(store: Map<Seq<u8>, Seq<u8>>, job: JobView, position: int)
    requires
        job.cursor < job.end <= job.row.size,
        job.cursor as int / 65_536 <= position,
        position * 65_536 < job.end,
        lacks(store, job.row, position),
        forall|p: int|
            0 <= p < job.row.leaves.len() && store.contains_key(#[trigger] job.row.leaves[p])
                ==> store[job.row.leaves[p]].len() <= 65_536,
    ensures
        read_from(store, next_step(job)) == gap(job.slot),
    decreases job.end - job.cursor,
{
    let p = job.cursor as int / 65_536;
    if p < job.row.leaves.len() && store.contains_key(job.row.leaves[p]) {
        let chunk = store[job.row.leaves[p]];
        let n = taken(job, chunk);
        assert(chunk.len() <= 65_536);
        assert(chunk_start(job.row.size, p) == p * 65_536);
        if n > 0 {
            assert(p < position);
            assert(job.cursor + n <= (p + 1) * 65_536);
            assert(job.cursor + n < job.end);
            let later = JobView {
                cursor: (job.cursor + n) as u64,
                out: job.out + chunk.subrange(within(job), within(job) + n),
                ..job
            };
            assert(later.cursor as int / 65_536 <= p + 1);
            lemma_read_stops(store, later, position);
        }
    }
}

/// A read of a range with a missing chunk in it is refused whole, wherever in
/// the range the chunk is, and its slot is reported. The chunks that are there
/// are no longer than a chunk is.
pub proof fn law_a_gap_is_refused_and_reported(
    store: Map<Seq<u8>, Seq<u8>>,
    h: HoldingView,
    slot: u32,
    offset: u64,
    len: u32,
    position: int,
)
    requires
        h.rows.contains_key(slot),
        0 < len <= MAX_READ_LEN,
        offset < h.rows[slot].size,
        offset as int / 65_536 <= position,
        position * 65_536 < read_end(h.rows[slot].size, offset, len),
        lacks(store, h.rows[slot], position),
        forall|p: int|
            0 <= p < h.rows[slot].leaves.len() && store.contains_key(
                #[trigger] h.rows[slot].leaves[p],
            ) ==> store[h.rows[slot].leaves[p]].len() <= 65_536,
    ensures
        read_from(store, first_step(Some(h), slot, offset, len)) == StepView::Answer(
            ReadStatus::BadIndex,
            Seq::empty(),
            Some(slot),
        ),
{
    let row = h.rows[slot];
    let end = read_end(row.size, offset, len);
    lemma_read_stops(
        store,
        JobView { slot, row, cursor: offset, end, out: Seq::empty() },
        position,
    );
}

/// A slot this peer never knew is refused without a report.
pub proof fn law_an_unknown_slot_is_not_reported(
    holding: Option<HoldingView>,
    slot: u32,
    offset: u64,
    len: u32,
)
    requires
        len <= MAX_READ_LEN,
        holding matches Some(h) ==> !h.rows.contains_key(slot),
    ensures
        first_step(holding, slot, offset, len) == StepView::Answer(
            ReadStatus::BadIndex,
            Seq::empty(),
            None,
        ),
{
}

proof fn lemma_new_row(rows: Map<u32, ChunkMapView>, slot: u32, row: ChunkMapView)
    requires
        !rows.contains_key(slot),
    ensures
        forall|root: Seq<u8>| #[trigger]
            has_root(rows.insert(slot, row), root) == (has_root(rows, root) || root == row.root),
        forall|address: Seq<u8>| #[trigger]
            in_scope(rows.insert(slot, row), address) == (in_scope(rows, address)
                || row.leaves.contains(address)),
{
    let after = rows.insert(slot, row);
    assert(after.contains_key(slot));
    assert forall|root: Seq<u8>| #[trigger] has_root(after, root) == (has_root(rows, root) || root
        == row.root) by {
        if has_root(rows, root) {
            let s = choose|s: u32| #[trigger] rows.contains_key(s) && rows[s].root == root;
            assert(after.contains_key(s) && after[s] == rows[s]);
        }
        if has_root(after, root) {
            let s = choose|s: u32| #[trigger] after.contains_key(s) && after[s].root == root;
            if s != slot {
                assert(rows.contains_key(s));
            }
        }
    }
    assert forall|address: Seq<u8>| #[trigger] in_scope(after, address) == (in_scope(rows, address)
        || row.leaves.contains(address)) by {
        if in_scope(rows, address) {
            let s = choose|s: u32| #[trigger]
                rows.contains_key(s) && rows[s].leaves.contains(address);
            assert(after.contains_key(s) && after[s] == rows[s]);
        }
        if in_scope(after, address) {
            let s = choose|s: u32| #[trigger]
                after.contains_key(s) && after[s].leaves.contains(address);
            if s != slot {
                assert(rows.contains_key(s));
            }
        }
    }
}

/// A seeder answers for a chunk exactly where a row it holds reaches it, also
/// after it took up another row: what the new row reaches, and what the rows of
/// the other slots reach, and nothing on account of the row that stood there.
pub proof fn law_scope_is_what_the_rows_reach(
    rows: Map<u32, ChunkMapView>,
    slot: u32,
    row: ChunkMapView,
    address: Seq<u8>,
)
    ensures
        in_scope(rows.insert(slot, row), address) <==> row.leaves.contains(address) || exists|
            other: u32,
        |
            other != slot && #[trigger] rows.contains_key(other) && rows[other].leaves.contains(
                address,
            ),
        has_root(rows.insert(slot, row), row.root),
{
    lemma_new_row(rows.remove(slot), slot, row);
    assert(rows.remove(slot).insert(slot, row) =~= rows.insert(slot, row));
    let rest = rows.remove(slot);
    if in_scope(rest, address) {
        let other = choose|s: u32| #[trigger]
            rest.contains_key(s) && rest[s].leaves.contains(address);
        assert(rows.contains_key(other) && other != slot);
    }
    if exists|other: u32|
        other != slot && #[trigger] rows.contains_key(other) && rows[other].leaves.contains(
            address,
        ) {
        let other = choose|other: u32|
            other != slot && #[trigger] rows.contains_key(other) && rows[other].leaves.contains(
                address,
            );
        assert(rest.contains_key(other));
    }
    assert(has_root(rows.insert(slot, row), row.root));
}

/// Asking for one slot and asking for all of them agree on it.
pub proof fn law_holds_agrees_with_complete_slots(
    rows: Seq<RowRef>,
    coverages: Seq<Seq<bool>>,
    i: int,
)
    requires
        0 <= i < rows.len() <= coverages.len(),
        forall|a: int, b: int|
            0 <= a < b < rows.len() ==> (#[trigger] rows[a]).slot < (#[trigger] rows[b]).slot,
    ensures
        full_slots(rows, coverages).contains(rows[i].slot) <==> is_full(rows[i], coverages[i]),
        forall|x: u32| #[trigger]
            full_slots(rows, coverages).contains(x) ==> exists|j: int|
                0 <= j < rows.len() && (#[trigger] rows[j]).slot == x,
{
    lemma_full_slots(rows, coverages, rows[i].slot);
    assert forall|x: u32| #[trigger] full_slots(rows, coverages).contains(x) implies exists|j: int|
        0 <= j < rows.len() && (#[trigger] rows[j]).slot == x by {
        lemma_full_slots(rows, coverages, x);
    }
}

proof fn lemma_full_slots(rows: Seq<RowRef>, coverages: Seq<Seq<bool>>, x: u32)
    requires
        rows.len() <= coverages.len(),
    ensures
        full_slots(rows, coverages).contains(x) <==> exists|j: int|
            0 <= j < rows.len() && (#[trigger] rows[j]).slot == x && is_full(rows[j], coverages[j]),
    decreases rows.len(),
{
    let all = full_slots(rows, coverages);
    if rows.len() > 0 {
        let short = rows.drop_last();
        let rest = full_slots(short, coverages);
        lemma_full_slots(short, coverages, x);
        let last = rows.len() - 1;
        let full = is_full(rows[last], coverages[last]);
        if rest.contains(x) {
            let k = choose|k: int| 0 <= k < rest.len() && rest[k] == x;
            assert(all[k] == x);
            let j = choose|j: int|
                0 <= j < short.len() && (#[trigger] short[j]).slot == x && is_full(
                    short[j],
                    coverages[j],
                );
            assert(rows[j].slot == x && is_full(rows[j], coverages[j]));
        }
        if full && rows[last].slot == x {
            assert(all[all.len() - 1] == x);
        }
        if all.contains(x) && !rest.contains(x) {
            let k = choose|k: int| 0 <= k < all.len() && all[k] == x;
            if k < rest.len() {
                assert(rest[k] == x);
            }
            assert(rows[last].slot == x && full);
        }
        if exists|j: int|
            0 <= j < rows.len() && (#[trigger] rows[j]).slot == x && is_full(
                rows[j],
                coverages[j],
            ) {
            let j = choose|j: int|
                0 <= j < rows.len() && (#[trigger] rows[j]).slot == x && is_full(
                    rows[j],
                    coverages[j],
                );
            if j < last {
                assert(short[j].slot == x && is_full(short[j], coverages[j]));
            }
        }
    }
}

/// A watch frame carries the envelope behind its kind, as it was handed over.
pub proof fn law_a_frame_carries_the_envelope(envelope: Seq<u8>)
    ensures
        manifest_frame(envelope)[0] == WATCH_FRAME_MANIFEST,
        manifest_frame(envelope).skip(1) == envelope,
{
    assert(manifest_frame(envelope).skip(1) =~= envelope);
}

/// A read of a file whose chunks are all there, of 64 KiB each but the last, is
/// answered with exactly the bytes that were asked for: as many as asked, or up
/// to the end of the file. Nothing is answered past the end.
pub proof fn law_a_read_is_the_bytes_asked_for(
    store: Map<Seq<u8>, Seq<u8>>,
    h: HoldingView,
    slot: u32,
    content: Seq<u8>,
    offset: u64,
    len: u32,
)
    requires
        h.rows.contains_key(slot),
        content.len() == h.rows[slot].size,
        h.rows[slot].leaves.len() * 65_536 >= content.len(),
        forall|p: int|
            0 <= p < h.rows[slot].leaves.len() ==> store.contains_key(
                #[trigger] h.rows[slot].leaves[p],
            ) && store[h.rows[slot].leaves[p]] == content.subrange(
                if p * 65_536 < content.len() {
                    p * 65_536
                } else {
                    content.len() as int
                },
                if (p + 1) * 65_536 < content.len() {
                    (p + 1) * 65_536
                } else {
                    content.len() as int
                },
            ),
        len <= 256 * 1024,
    ensures
        ({
            let asked = if offset >= content.len() {
                0
            } else if len <= content.len() - offset {
                len as int
            } else {
                content.len() - offset
            };
            let from = if offset >= content.len() {
                content.len() as int
            } else {
                offset as int
            };
            read_from(store, first_step(Some(h), slot, offset, len)) == StepView::Answer(
                ReadStatus::Success,
                content.subrange(from, from + asked),
                None,
            )
        }),
{
    let row = h.rows[slot];
    assert forall|p: int| 0 <= p < row.leaves.len() implies store.contains_key(
        #[trigger] row.leaves[p],
    ) && store[row.leaves[p]] == content.subrange(
        chunk_start(row.size, p),
        chunk_end(row.size, p),
    ) by {}
    law_a_full_holding_reads_as_the_file(store, h, slot, content, offset, len);
    assert(content.subrange(content.len() as int, content.len() as int) =~= Seq::empty());
}

/// A read is never answered short: whatever a store holds of a file, a read that
/// succeeds has as many bytes as were asked for, or reaches the end of the file.
pub proof fn law_no_answer_is_short(
    store: Map<Seq<u8>, Seq<u8>>,
    holding: Option<HoldingView>,
    slot: u32,
    offset: u64,
    len: u32,
    bytes: Seq<u8>,
    hole: Option<u32>,
)
    requires
        read_from(store, first_step(holding, slot, offset, len)) == StepView::Answer(
            ReadStatus::Success,
            bytes,
            hole,
        ),
    ensures
        len <= 256 * 1024,
        hole is None,
        holding matches Some(h) && h.rows.contains_key(slot) && (bytes.len() == if offset
            >= h.rows[slot].size {
            0
        } else if len <= h.rows[slot].size - offset {
            len as int
        } else {
            h.rows[slot].size - offset
        }),
{
    if len <= MAX_READ_LEN && holding is Some {
        let h = holding->Some_0;
        if h.rows.contains_key(slot) && offset < h.rows[slot].size && len > 0 {
            let row = h.rows[slot];
            let end = read_end(row.size, offset, len);
            let job = JobView { slot, row, cursor: offset, end, out: Seq::empty() };
            lemma_read_is_whole(store, job, offset);
        }
    }
}

proof fn lemma_read_is_whole(store: Map<Seq<u8>, Seq<u8>>, job: JobView, offset: u64)
    requires
        offset <= job.cursor <= job.end <= job.row.size,
        job.out.len() == job.cursor - offset,
    ensures
        match read_from(store, next_step(job)) {
            StepView::Answer(status, bytes, hole) => status == ReadStatus::Success ==> {
                &&& hole is None
                &&& bytes.len() == job.end - offset
            },
            StepView::Fetch(_, _) => true,
        },
    decreases job.end - job.cursor,
{
    if job.cursor < job.end && job.cursor as int / 65_536 < job.row.leaves.len() {
        let address = job.row.leaves[job.cursor as int / 65_536];
        if store.contains_key(address) {
            let chunk = store[address];
            let n = taken(job, chunk);
            if n != 0 {
                let later = JobView {
                    cursor: (job.cursor + n) as u64,
                    out: job.out + chunk.subrange(within(job), within(job) + n),
                    ..job
                };
                assert(0 <= within(job) < 65_536);
                assert(later.out.len() == later.cursor - offset);
                lemma_read_is_whole(store, later, offset);
            }
        }
    }
}

/// A read that is too long, or of a slot that is not known, is refused before
/// anything is fetched.
pub proof fn law_what_cannot_be_read_is_refused_at_once(
    holding: Option<HoldingView>,
    slot: u32,
    offset: u64,
    len: u32,
)
    ensures
        len > 256 * 1024 ==> first_step(holding, slot, offset, len) == StepView::Answer(
            ReadStatus::LenOverCap,
            Seq::empty(),
            None,
        ),
        len <= 256 * 1024 && !(holding matches Some(h) && h.rows.contains_key(slot))
            ==> first_step(holding, slot, offset, len) == StepView::Answer(
            ReadStatus::BadIndex,
            Seq::empty(),
            None,
        ),
        first_step(holding, slot, offset, len) matches StepView::Fetch(address, job) ==> {
            &&& holding is Some
            &&& holding->Some_0.rows.contains_key(slot)
            &&& offset as int / 65_536 < holding->Some_0.rows[slot].leaves.len()
            &&& address == holding->Some_0.rows[slot].leaves[offset as int / 65_536]
        },
{
}

/// An address is in the share where some row has it, and a root where some row
/// has that.
pub proof fn law_the_share_is_its_rows(
    rows: Map<u32, ChunkMapView>,
    address: Seq<u8>,
    root: Seq<u8>,
)
    ensures
        in_scope(rows, address) <==> exists|slot: u32, p: int|
            rows.contains_key(slot) && 0 <= p < rows[slot].leaves.len()
                && #[trigger] rows[slot].leaves[p] == address,
        has_root(rows, root) <==> exists|slot: u32|
            rows.contains_key(slot) && #[trigger] rows[slot].root == root,
{
    if in_scope(rows, address) {
        let slot = choose|slot: u32| #[trigger]
            rows.contains_key(slot) && rows[slot].leaves.contains(address);
        let p = choose|p: int|
            0 <= p < rows[slot].leaves.len() && rows[slot].leaves[p] == address;
        assert(rows[slot].leaves[p] == address);
    }
    if has_root(rows, root) {
        let slot = choose|slot: u32| #[trigger] rows.contains_key(slot) && rows[slot].root == root;
        assert(rows[slot].root == root);
    }
}

/// A peer holds what it is given: the envelope as it is, and for every slot the
/// last row given for it.
pub proof fn law_a_peer_holds_what_it_is_given(
    envelope: Seq<u8>,
    rows: Seq<(u32, ChunkMapView)>,
    slot: u32,
)
    ensures
        given(envelope, rows).envelope == envelope,
        given(envelope, rows).rows.contains_key(slot) <==> exists|i: int|
            0 <= i < rows.len() && (#[trigger] rows[i]).0 == slot,
        forall|i: int|
            0 <= i < rows.len() && (#[trigger] rows[i]).0 == slot && (forall|j: int|
                i < j < rows.len() ==> (#[trigger] rows[j]).0 != slot) ==> given(
                envelope,
                rows,
            ).rows[slot] == rows[i].1,
{
    let k = lemma_rows_map(rows, slot);
    assert forall|i: int|
        0 <= i < rows.len() && (#[trigger] rows[i]).0 == slot && (forall|j: int|
            i < j < rows.len() ==> (#[trigger] rows[j]).0 != slot) implies rows_map(rows)[slot]
        == rows[i].1 by {
        if k < i {
            assert(rows[i].0 != slot);
        } else if i < k {
            assert(rows[k].0 != slot);
        }
    }
}

/// The last row given for a slot, or none.
proof fn lemma_rows_map(rows: Seq<(u32, ChunkMapView)>, slot: u32) -> (k: int)
    ensures
        -1 <= k < rows.len(),
        rows_map(rows).contains_key(slot) == (k >= 0),
        k >= 0 ==> rows[k].0 == slot && rows_map(rows)[slot] == rows[k].1,
        forall|j: int| k < j < rows.len() ==> (#[trigger] rows[j]).0 != slot,
    decreases rows.len(),
{
    if rows.len() == 0 {
        -1
    } else {
        let front = rows.drop_last();
        let n = rows.len() - 1;
        if rows[n].0 == slot {
            n
        } else {
            let k = lemma_rows_map(front, slot);
            assert forall|j: int| k < j < rows.len() implies (#[trigger] rows[j]).0 != slot by {
                if j < n {
                    assert(front[j] == rows[j]);
                }
            }
            k
        }
    }
}

/// The slots held in full are those whose coverage has every chunk of the row, in
/// the order the rows are in.
pub proof fn law_complete_slots_are_the_full_ones(
    rows: Seq<RowRef>,
    coverages: Seq<Seq<bool>>,
    slot: u32,
)
    requires
        rows.len() == coverages.len(),
    ensures
        full_slots(rows, coverages).contains(slot) <==> exists|i: int|
            0 <= i < rows.len() && (#[trigger] rows[i]).slot == slot && rows[i].chunks
                == coverages[i].filter(|held: bool| held).len(),
        full_slots(rows, coverages).len() <= rows.len(),
        (forall|i: int, j: int|
            0 <= i < j < rows.len() ==> (#[trigger] rows[i]).slot < (#[trigger] rows[j]).slot)
            ==> forall|i: int, j: int|
            0 <= i < j < full_slots(rows, coverages).len() ==> #[trigger] full_slots(
                rows,
                coverages,
            )[i] < #[trigger] full_slots(rows, coverages)[j],
{
    lemma_full_by_count(rows, coverages, slot);
}

proof fn lemma_held_count(coverage: Seq<bool>)
    ensures
        held_count(coverage) == coverage.filter(|held: bool| held).len(),
    decreases coverage.len(),
{
    reveal(Seq::filter);
    if coverage.len() > 0 {
        lemma_held_count(coverage.drop_last());
    }
}

proof fn lemma_full_by_count(rows: Seq<RowRef>, coverages: Seq<Seq<bool>>, slot: u32)
    requires
        rows.len() <= coverages.len(),
    ensures
        full_slots(rows, coverages).contains(slot) <==> exists|i: int|
            0 <= i < rows.len() && (#[trigger] rows[i]).slot == slot && rows[i].chunks
                == coverages[i].filter(|held: bool| held).len(),
        full_slots(rows, coverages).len() <= rows.len(),
        (forall|i: int, j: int|
            0 <= i < j < rows.len() ==> (#[trigger] rows[i]).slot < (#[trigger] rows[j]).slot)
            ==> {
            &&& forall|i: int, j: int|
                0 <= i < j < full_slots(rows, coverages).len() ==> #[trigger] full_slots(
                    rows,
                    coverages,
                )[i] < #[trigger] full_slots(rows, coverages)[j]
            &&& forall|i: int|
                0 <= i < full_slots(rows, coverages).len() ==> rows.len() > 0 && #[trigger]
                    full_slots(rows, coverages)[i] <= rows.last().slot
        },
    decreases rows.len(),
{
    if rows.len() > 0 {
        let front = rows.drop_last();
        let n = rows.len() - 1;
        lemma_full_by_count(front, coverages, slot);
        lemma_held_count(coverages[n]);
        let rest = full_slots(front, coverages);
        let all = full_slots(rows, coverages);
        let full = rows[n].chunks == coverages[n].filter(|held: bool| held).len();
        assert(is_full(rows[n], coverages[n]) == full);
        if all.contains(slot) {
            let a = choose|a: int| 0 <= a < all.len() && all[a] == slot;
            if a < rest.len() {
                assert(rest[a] == slot);
                assert(rest.contains(slot));
                let i = choose|i: int|
                    0 <= i < front.len() && (#[trigger] front[i]).slot == slot && front[i].chunks
                        == coverages[i].filter(|held: bool| held).len();
                assert(rows[i].slot == slot);
            } else {
                assert(rows[n].slot == slot);
            }
        }
        if exists|i: int|
            0 <= i < rows.len() && (#[trigger] rows[i]).slot == slot && rows[i].chunks
                == coverages[i].filter(|held: bool| held).len() {
            let i = choose|i: int|
                0 <= i < rows.len() && (#[trigger] rows[i]).slot == slot && rows[i].chunks
                    == coverages[i].filter(|held: bool| held).len();
            if i < n {
                assert(front[i].slot == slot);
                let a = choose|a: int| 0 <= a < rest.len() && rest[a] == slot;
                assert(all[a] == slot);
            } else {
                assert(all[rest.len() as int] == slot);
            }
        }
        if forall|i: int, j: int|
            0 <= i < j < rows.len() ==> (#[trigger] rows[i]).slot < (#[trigger] rows[j]).slot {
            assert forall|i: int, j: int| 0 <= i < j < front.len() implies (
            #[trigger] front[i]).slot < (#[trigger] front[j]).slot by {
                assert(rows[i].slot < rows[j].slot);
            }
            if n > 0 {
                assert(rows[n - 1].slot < rows[n].slot);
            }
        }
    }
}

} // verus!
