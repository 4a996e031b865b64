//! Serving a scanned folder.
//!
//! Nothing of a file is read before a peer asks about it. Reads of the files
//! themselves happen outside; what is here says which file, which bytes, and
//! what to make of what came back.
use crate::authorship::{
    law_signed_manifest_round_trip, signed_manifest_bytes, signed_manifest_of, SignedManifest,
    SignedView,
};
use crate::chunk_table::{forgotten, with_row, ChunkTable, ChunkTableView};
use crate::chunks::{chunk_end, chunk_start, ChunkMap, ChunkMapView, Coverage};
use crate::codec::fits16;
use crate::error::WireError;
use crate::framing::{MAX_MANIFEST_BYTES, MAX_READ_LEN, WATCH_FRAME_MANIFEST};
use crate::listing::Scanned;
use crate::live_state::{
    after_rescan, cloned_view, first_tree, first_wins, fold_all, fold_end, fold_one, fold_start,
    given_views, live_bytes, live_count, live_wf, rescan_changes, rescanned, Fold, LiveState,
    LiveView,
};
use crate::lookup::LookupOpts;
use crate::manifest::{
    dir_views, file_fits, law_manifest_round_trip, manifest_bytes, manifest_fits, manifest_of,
    DirView, FileView, ManifestView, ReadStatus,
};
use crate::seed::{frame_of, manifest_frame};
use crate::text::bytes_eq;
use crate::ticket::{MountTicket, TICKET_FLAG_PASSWORD, TICKET_KIND_SHARE};
use crate::update::{lemma_manifest_frame, watch_outcome};
use vstd::prelude::*;
use vstd::slice::slice_to_vec;

verus! {

/// Why a share cannot start.
#[derive(Debug, Clone, Copy, PartialEq, Eq, Structural)]
pub enum StartError {
    Empty,
    TooLarge,
}

impl StartError {
    pub open spec fn text(self) -> Seq<char> {
        match self {
            StartError::Empty => "share is empty"@,
            StartError::TooLarge => "tree too large to serve"@,
        }
    }

    /// What went wrong, in words.
    pub fn message(self) -> (text: &'static str)
        ensures
            text@ == self.text(),
    {
        match self {
            StartError::Empty => "share is empty",
            StartError::TooLarge => "tree too large to serve",
        }
    }
}

/// A share being served from a scanned folder. `H` stands for whatever a file
/// is read through.
pub struct ShareProducer<H> {
    state: LiveState<H>,
    chunks: ChunkTable,
}

pub struct ProducerView<H> {
    pub tree: LiveView<H>,
    pub chunks: ChunkTableView,
}

impl<H> View for ShareProducer<H> {
    type V = ProducerView<H>;

    closed spec fn view(&self) -> ProducerView<H> {
        ProducerView { tree: self.state@, chunks: self.chunks@ }
    }
}

/// The listing of a scan.
pub open spec fn scan_manifest<H>(scan: Scanned<H>) -> ManifestView {
    ManifestView {
        dirs: dir_views(scan.dirs@),
        files: Seq::new(scan.files@.len(), |i: int| scan.files@[i].0@),
    }
}

/// Whether every path of a scan fits its field.
pub open spec fn paths_fit<H>(scan: Scanned<H>) -> bool {
    &&& forall|i: int| 0 <= i < scan.dirs@.len() ==> fits16((#[trigger] scan.dirs@[i]).rel_path@)
    &&& forall|i: int|
        0 <= i < scan.files@.len() ==> fits16((#[trigger] scan.files@[i]).0.rel_path@)
}

/// The envelope of a share nobody signs: version zero and a blank signature. A
/// reader of such a share is given no author and checks none.
pub open spec fn unsigned(manifest: Seq<u8>) -> SignedView {
    SignedView { version: 0, signature: Seq::new(64, |i: int| 0u8), manifest }
}

/// The envelope of a listing nobody signs.
fn envelope_of(manifest: &[u8]) -> (out: Vec<u8>)
    ensures
        out@ == signed_manifest_bytes(unsigned(manifest@)),
{
    let envelope = SignedManifest {
        version: 0,
        signature: [0u8; 64],
        manifest: slice_to_vec(manifest),
    };
    assert(envelope.signature@ =~= Seq::new(64, |i: int| 0u8));
    envelope.encode()
}

/// What an origin's read needs, or comes to.
pub enum FileRead<'a, H> {
    /// The answer.
    Answer(ReadStatus, Vec<u8>),
    /// Read the range through this.
    Through(&'a H),
}

/// Which try at a read failed or succeeded.
#[derive(Debug, Clone, Copy, PartialEq, Eq, Structural)]
pub enum Attempt {
    First,
    Second,
}

pub open spec fn answers<H>(read: FileRead<H>, status: ReadStatus, bytes: Seq<u8>) -> bool {
    read matches FileRead::Answer(s, b) && s == status && b@ == bytes
}

/// What stands at an index: nothing past the end or at a tombstone.
pub open spec fn payload_at<H>(tree: LiveView<H>, index: u32) -> Option<H> {
    if index < tree.slots.len() {
        tree.slots[index as int]
    } else {
        None
    }
}

/// Whether a read goes to the file at an index: through it where it is there,
/// refused where it is not.
pub open spec fn goes_to<H>(read: FileRead<H>, tree: LiveView<H>, index: u32) -> bool {
    match payload_at(tree, index) {
        Some(payload) => read matches FileRead::Through(p) && *p == payload,
        None => answers(read, ReadStatus::BadIndex, Seq::empty()),
    }
}

/// The part of a range that a file of `live` bytes has: where it starts and
/// ends. Nothing where it has none of it.
pub open spec fn live_range(live: u64, offset: u64, len: u32) -> Option<(u64, u64)> {
    if len == 0 || offset >= live {
        None
    } else if offset + len < live {
        Some((offset, (offset + len) as u64))
    } else {
        Some((offset, live))
    }
}

/// The part of a range that a file of `live` bytes has.
pub fn clamp_read(live: u64, offset: u64, len: u32) -> (range: Option<(u64, u64)>)
    ensures
        range == live_range(live, offset, len),
{
    if len == 0 || offset >= live {
        return None;
    }
    if live - offset > len as u64 {
        Some((offset, offset + len as u64))
    } else {
        Some((offset, live))
    }
}

impl<H> ShareProducer<H> {
    pub closed spec fn wf(&self) -> bool {
        &&& self.state.wf()
        &&& live_wf(self.state@)
        &&& self.chunks.wf()
    }

    /// Starts serving a scan.
    ///
    /// # Errors
    /// The scan is empty, or its listing is too large to serve.
    pub fn start(scan: Scanned<H>) -> (out: Result<Self, StartError>)
        requires
            manifest_fits(scan_manifest(scan)),
        ensures
            match out {
                Ok(producer) => {
                    &&& producer.wf()
                    &&& producer@.tree == first_tree(dir_views(scan.dirs@), given_views(scan.files@))
                    &&& producer@.chunks.rows == Map::<u32, ChunkMapView>::empty()
                    &&& producer@.chunks.roots == Map::<Seq<u8>, u32>::empty()
                    &&& producer@.chunks.addresses == Map::<Seq<u8>, (u32, usize)>::empty()
                    &&& scan.dirs@.len() + scan.files@.len() > 0
                    &&& manifest_bytes(scan_manifest(scan)).len() <= MAX_MANIFEST_BYTES
                },
                Err(StartError::Empty) => scan.dirs@.len() == 0 && scan.files@.len() == 0,
                Err(StartError::TooLarge) => scan.dirs@.len() + scan.files@.len() > 0
                    && manifest_bytes(scan_manifest(scan)).len() > MAX_MANIFEST_BYTES,
            },
    {
        if scan.files.len() == 0 && scan.dirs.len() == 0 {
            return Err(StartError::Empty);
        }
        let ghost listing = scan_manifest(scan);
        let ghost tree = first_tree(dir_views(scan.dirs@), given_views(scan.files@));
        assert(tree.files =~= listing.files);
        let state = LiveState::new(scan.dirs, scan.files);
        if state.encoded().len() > MAX_MANIFEST_BYTES as usize {
            return Err(StartError::TooLarge);
        }
        Ok(ShareProducer { state, chunks: ChunkTable::default() })
    }

    /// The answer to a manifest request.
    #[must_use]
    pub fn manifest_envelope(&self) -> (envelope: Vec<u8>)
        ensures
            envelope@ == signed_manifest_bytes(unsigned(self@.tree.encoded)),
    {
        envelope_of(self.state.encoded())
    }

    /// The opening frame of a new watcher.
    #[must_use]
    pub fn subscribe(&self) -> (frame: Vec<u8>)
        ensures
            frame@ == manifest_frame(signed_manifest_bytes(unsigned(self@.tree.encoded))),
    {
        let envelope = envelope_of(self.state.encoded());
        frame_of(envelope.as_slice())
    }

    /// How many files are being served.
    #[must_use]
    pub fn files(&self) -> (n: u32)
        requires
            self.wf(),
        ensures
            n == live_count(self@.tree.files),
    {
        self.state.live_counts().0
    }

    /// How many bytes are being served; the count saturates.
    #[must_use]
    pub fn bytes(&self) -> (n: u64)
        requires
            self.wf(),
        ensures
            n == (if live_bytes(self@.tree.files) <= u64::MAX {
                live_bytes(self@.tree.files)
            } else {
                u64::MAX as nat
            }),
    {
        self.state.live_counts().1
    }

    /// What share bytes ride on.
    #[must_use]
    pub fn transport(&self) -> (label: &'static str)
        ensures
            label@ == "webrtc"@,
    {
        "webrtc"
    }

    fn through(&self, index: u32) -> (read: FileRead<'_, H>)
        ensures
            goes_to(read, self@.tree, index),
    {
        match self.state.slot(index) {
            Some(payload) => FileRead::Through(payload),
            None => {
                let nothing: Vec<u8> = Vec::new();
                assert(nothing@ =~= Seq::<u8>::empty());
                FileRead::Answer(ReadStatus::BadIndex, nothing)
            },
        }
    }

    /// Begins a read of a byte range.
    pub fn answer_read(&self, index: u32, len: u32) -> (read: FileRead<'_, H>)
        ensures
            if len > MAX_READ_LEN {
                answers(read, ReadStatus::LenOverCap, Seq::empty())
            } else {
                goes_to(read, self@.tree, index)
            },
    {
        if len > MAX_READ_LEN {
            let nothing: Vec<u8> = Vec::new();
            assert(nothing@ =~= Seq::<u8>::empty());
            return FileRead::Answer(ReadStatus::LenOverCap, nothing);
        }
        self.through(index)
    }

    /// Goes on with a read once the file answered. A rescan may have put a
    /// fresh handle in place, so a first failure is tried again.
    pub fn resume_read(&self, index: u32, attempt: Attempt, bytes: Option<Vec<u8>>) -> (read:
        FileRead<'_, H>)
        ensures
            match (bytes, attempt) {
                (Some(b), _) => answers(read, ReadStatus::Success, b@),
                (None, Attempt::First) => goes_to(read, self@.tree, index),
                (None, Attempt::Second) => answers(read, ReadStatus::Io, Seq::empty()),
            },
    {
        match bytes {
            Some(bytes) => FileRead::Answer(ReadStatus::Success, bytes),
            None => match attempt {
                Attempt::First => self.through(index),
                Attempt::Second => {
                    let nothing: Vec<u8> = Vec::new();
                    assert(nothing@ =~= Seq::<u8>::empty());
                    FileRead::Answer(ReadStatus::Io, nothing)
                },
            },
        }
    }

    /// The payload at an index.
    pub fn slot(&self, index: u32) -> (payload: Option<&H>)
        ensures
            match payload {
                Some(p) => payload_at(self@.tree, index) == Some(*p),
                None => payload_at(self@.tree, index) is None,
            },
    {
        self.state.slot(index)
    }

    /// The row of a file whose size is `live` right now. A row for another size
    /// is of a file that moved, and is not used.
    #[must_use]
    pub fn cached_row(&self, index: u32, live: u64) -> (row: Option<ChunkMap>)
        requires
            self.wf(),
        ensures
            match row {
                Some(r) => self@.chunks.rows.contains_key(index) && r@ == self@.chunks.rows[index]
                    && r@.size == live,
                None => !self@.chunks.rows.contains_key(index) || self@.chunks.rows[index].size
                    != live,
            },
    {
        match self.chunks.row(index) {
            None => None,
            Some(row) => {
                if row.size == live {
                    Some(row.copy())
                } else {
                    None
                }
            },
        }
    }

    /// Takes up a row that was just computed from a file of `live` bytes, and
    /// hands it back. One of another size describes neither version of a file
    /// that moved meanwhile: nothing is kept of it.
    pub fn keep_row(&mut self, index: u32, live: u64, row: ChunkMap) -> (kept: Option<ChunkMap>)
        requires
            old(self).wf(),
        ensures
            final(self).wf(),
            final(self)@.tree == old(self)@.tree,
            match kept {
                Some(r) => row.size == live && r@ == row@ && final(self)@.chunks == with_row(
                    old(self)@.chunks,
                    index,
                    row@,
                ),
                None => row.size != live && final(self)@.chunks == old(self)@.chunks,
            },
    {
        if row.size != live {
            return None;
        }
        let kept = row.copy();
        self.chunks.insert(index, row);
        Some(kept)
    }

    /// Where the bytes at an address are to be read: the file's index, the
    /// offset and how many bytes. Nothing where no row reaches the address, or
    /// the file is gone.
    #[must_use]
    pub fn locate_chunk(&self, address: &[u8; 32]) -> (place: Option<(u32, u64, u32)>)
        requires
            self.wf(),
        ensures
            match place {
                Some((index, start, want)) => {
                    let (slot, position) = self@.chunks.addresses[address@];
                    let size = self@.chunks.rows[slot].size;
                    &&& self@.chunks.addresses.contains_key(address@)
                    &&& index == slot
                    &&& payload_at(self@.tree, slot) is Some
                    &&& start == chunk_start(size, position as int)
                    &&& start + want == chunk_end(size, position as int)
                },
                None => !self@.chunks.addresses.contains_key(address@) || payload_at(
                    self@.tree,
                    self@.chunks.addresses[address@].0,
                ) is None,
            },
    {
        let (index, position): (u32, usize) = match self.chunks.place_of(address) {
            None => return None,
            Some(place) => place,
        };
        if self.state.slot(index).is_none() {
            return None;
        }
        match self.chunks.row(index) {
            None => None,
            Some(row) => {
                let (start, end): (u64, u64) = row.range_of(position as u64);
                Some((index, start, (end - start) as u32))
            },
        }
    }

    /// Passes on the bytes read for an address, if their own address is that
    /// one. The file can change between the row and the read: then everything
    /// derived from it is forgotten.
    pub fn check_chunk(
        &mut self,
        index: u32,
        address: &[u8; 32],
        actual: &[u8; 32],
        bytes: Vec<u8>,
    ) -> (out: Option<Vec<u8>>)
        requires
            old(self).wf(),
        ensures
            final(self).wf(),
            final(self)@.tree == old(self)@.tree,
            match out {
                Some(b) => b@ == bytes@ && actual@ == address@ && final(self)@.chunks == old(
                    self,
                )@.chunks,
                None => actual@ != address@ && final(self)@.chunks == forgotten(
                    old(self)@.chunks,
                    index,
                ),
            },
    {
        if !bytes_eq(actual.as_slice(), address.as_slice()) {
            self.chunks.forget(index);
            return None;
        }
        Some(bytes)
    }

    /// The file a root was computed for.
    #[must_use]
    pub fn locate_root(&self, root: &[u8; 32]) -> (index: Option<u32>)
        requires
            self.wf(),
        ensures
            index == (if self@.chunks.roots.contains_key(root@) {
                Some(self@.chunks.roots[root@])
            } else {
                None
            }),
    {
        self.chunks.slot_of(root)
    }
}

/// What an origin holds of a file: all of it, where the row computed right now
/// still has the root that was asked for.
#[must_use]
pub fn have_of(root: &[u8; 32], row: Option<&ChunkMap>) -> (coverage: Option<Coverage>)
    ensures
        match coverage {
            Some(c) => row is Some && row->Some_0.root@ == root@ && c@ == Seq::new(
                row->Some_0.leaves@.len(),
                |i: int| true,
            ),
            None => row is None || row->Some_0.root@ != root@,
        },
{
    match row {
        None => None,
        Some(row) => {
            if bytes_eq(row.root.as_slice(), root.as_slice()) {
                Some(Coverage::complete(row.len()))
            } else {
                None
            }
        },
    }
}

/// A row being computed: how far the file has been read.
#[derive(Debug, Clone, Copy, PartialEq, Eq)]
pub struct RowBuild {
    live: u64,
    offset: u64,
}

impl RowBuild {
    pub closed spec fn spec_live(&self) -> u64 {
        self.live
    }

    pub closed spec fn spec_offset(&self) -> u64 {
        self.offset
    }

    /// Begins on a file of `live` bytes.
    #[must_use]
    pub fn begin(live: u64) -> (out: Self)
        ensures
            out.spec_live() == live,
            out.spec_offset() == 0,
    {
        RowBuild { live, offset: 0 }
    }

    /// The next piece to read: its offset and length, at most one chunk.
    /// Nothing once the whole file has been read.
    #[must_use]
    pub fn wanted(&self) -> (piece: Option<(u64, u32)>)
        ensures
            piece == (if self.spec_offset() >= self.spec_live() {
                None
            } else if self.spec_live() - self.spec_offset() < 65_536 {
                Some((self.spec_offset(), (self.spec_live() - self.spec_offset()) as u32))
            } else {
                Some((self.spec_offset(), 65_536u32))
            }),
    {
        if self.offset >= self.live {
            return None;
        }
        let left: u64 = self.live - self.offset;
        if left < 65_536 {
            Some((self.offset, left as u32))
        } else {
            Some((self.offset, 65_536))
        }
    }

    /// Takes a piece of `len` bytes in. An empty one says that the file shrank
    /// while it was read, and there is nothing honest to answer with.
    #[must_use]
    pub fn push(self, len: u32) -> (out: Option<Self>)
        requires
            self.spec_offset() + len <= u64::MAX,
        ensures
            match out {
                Some(b) => len > 0 && b.spec_live() == self.spec_live() && b.spec_offset()
                    == self.spec_offset() + len,
                None => len == 0,
            },
    {
        if len == 0 {
            return None;
        }
        Some(RowBuild { live: self.live, offset: self.offset + len as u64 })
    }
}

proof fn lemma_fold_fits<H>(st: Fold<H>, files: Seq<(FileView, H)>)
    requires
        st.slots.len() == st.files.len(),
        st.names.len() == st.files.len(),
        st.live.len() == st.files.len(),
        forall|i: int| 0 <= i < st.files.len() ==> fits16((#[trigger] st.files[i]).rel_path),
        forall|i: int| 0 <= i < files.len() ==> fits16((#[trigger] files[i]).0.rel_path),
    ensures
        ({
            let out = fold_all(st, files);
            &&& out.slots.len() == out.files.len()
            &&& out.names.len() == out.files.len()
            &&& out.live.len() == out.files.len()
            &&& out.files.len() <= st.files.len() + files.len()
            &&& forall|i: int| 0 <= i < out.files.len() ==> fits16((#[trigger] out.files[i]).rel_path)
        }),
    decreases files.len(),
{
    if files.len() > 0 {
        let short = files.drop_last();
        lemma_fold_fits(st, short);
        let before = fold_all(st, short);
        let out = fold_all(st, files);
        assert(fits16(files[files.len() - 1].0.rel_path));
        crate::live_state::lemma_index_named(before.names, files.last().0.rel_path);
        assert(out == fold_one(before, files.last()));
    }
}

proof fn lemma_first_wins_fits<H>(files: Seq<(FileView, H)>)
    requires
        forall|i: int| 0 <= i < files.len() ==> fits16((#[trigger] files[i]).0.rel_path),
    ensures
        first_wins(files).len() <= files.len(),
        forall|i: int|
            0 <= i < first_wins(files).len() ==> fits16(
                (#[trigger] first_wins(files)[i]).0.rel_path,
            ),
    decreases files.len(),
{
    if files.len() > 0 {
        lemma_first_wins_fits(files.drop_last());
        assert(fits16(files[files.len() - 1].0.rel_path));
    }
}

/// A scan whose paths fit their fields leaves a listing that can be encoded.
proof fn lemma_rescan_fits<H>(v: LiveView<H>, dirs: Seq<DirView>, files: Seq<(FileView, H)>)
    requires
        live_wf(v),
        dirs.len() <= u32::MAX,
        v.files.len() + files.len() <= u32::MAX,
        forall|i: int| 0 <= i < dirs.len() ==> fits16((#[trigger] dirs[i]).rel_path),
        forall|i: int| 0 <= i < files.len() ==> fits16((#[trigger] files[i]).0.rel_path),
    ensures
        manifest_fits(ManifestView { dirs, files: rescanned(v, files).files }),
{
    let st = fold_start(v);
    assert forall|i: int| 0 <= i < st.files.len() implies fits16(
        (#[trigger] st.files[i]).rel_path,
    ) by {
        assert(file_fits()(v.files[i]));
    }
    lemma_first_wins_fits(files);
    lemma_fold_fits(st, first_wins(files));
    let all = fold_all(st, first_wins(files));
    let end = fold_end(all);
    assert(vstd::utf8::encode_utf8(Seq::empty()) =~= Seq::<u8>::empty());
    assert forall|i: int| 0 <= i < end.files.len() implies file_fits()(
        #[trigger] end.files[i],
    ) by {
        assert(fits16(all.files[i].rel_path));
    }
}

/// Whether a rescan can be folded into a tree: every path and every count fits
/// its field, and a version is left.
pub open spec fn takes_rescan<H>(tree: LiveView<H>, scan: Scanned<H>) -> bool {
    &&& tree.version < u64::MAX
    &&& paths_fit(scan)
    &&& scan.dirs@.len() <= u32::MAX
    &&& tree.files.len() + scan.files@.len() <= u32::MAX
}

impl<H> ShareProducer<H> {
    /// Whether [`ShareProducer::update`] takes a rescan.
    #[must_use]
    pub fn can_update(&self, scan: &Scanned<H>) -> (ok: bool)
        ensures
            ok == takes_rescan(self@.tree, *scan),
    {
        if self.state.version() == u64::MAX || scan.dirs.len() > u32::MAX as usize
            || self.state.assigned() > u32::MAX as usize || scan.files.len() > u32::MAX as usize
            - self.state.assigned() {
            return false;
        }
        let mut i: usize = 0;
        while i < scan.dirs.len()
            invariant
                0 <= i <= scan.dirs@.len(),
                forall|k: int| 0 <= k < i ==> fits16((#[trigger] scan.dirs@[k]).rel_path@),
            decreases scan.dirs@.len() - i,
        {
            if scan.dirs[i].rel_path.as_str().as_bytes().len() > u16::MAX as usize {
                assert(!fits16(scan.dirs@[i as int].rel_path@));
                return false;
            }
            i += 1;
        }
        let mut j: usize = 0;
        while j < scan.files.len()
            invariant
                0 <= j <= scan.files@.len(),
                forall|k: int| 0 <= k < j ==> fits16((#[trigger] scan.files@[k]).0.rel_path@),
            decreases scan.files@.len() - j,
        {
            if scan.files[j].0.rel_path.as_str().as_bytes().len() > u16::MAX as usize {
                assert(!fits16(scan.files@[j as int].0.rel_path@));
                return false;
            }
            j += 1;
        }
        true
    }
}

impl<H: Clone> ShareProducer<H> {
    /// Folds a rescan into the live tree. Hands out a frame for the watchers
    /// where the tree changed. A tree that has become too large to serve leaves
    /// the one before it in place.
    pub fn update(&mut self, scan: Scanned<H>) -> (frame: Option<Vec<u8>>)
        requires
            old(self).wf(),
            takes_rescan(old(self)@.tree, scan),
        ensures
            final(self).wf(),
            final(self)@.chunks == old(self)@.chunks,
            ({
                let dirs = dir_views(scan.dirs@);
                let files = given_views(scan.files@);
                let next = after_rescan(old(self)@.tree, dirs, files);
                if !rescan_changes(old(self)@.tree, dirs, files) {
                    frame is None && final(self)@.tree == old(self)@.tree
                } else if next.encoded.len() > MAX_MANIFEST_BYTES {
                    frame is None && cloned_view(old(self)@.tree, final(self)@.tree)
                } else {
                    &&& final(self)@.tree == next
                    &&& frame is Some
                    &&& frame->Some_0@ == manifest_frame(
                        signed_manifest_bytes(unsigned(next.encoded)),
                    )
                }
            }),
    {
        proof {
            let dirs = dir_views(scan.dirs@);
            let files = given_views(scan.files@);
            assert forall|i: int| 0 <= i < dirs.len() implies fits16(
                (#[trigger] dirs[i]).rel_path,
            ) by {
                assert(fits16(scan.dirs@[i].rel_path@));
            }
            assert forall|i: int| 0 <= i < files.len() implies fits16(
                (#[trigger] files[i]).0.rel_path,
            ) by {
                assert(fits16(scan.files@[i].0.rel_path@));
            }
            lemma_rescan_fits(self.state@, dirs, files);
        }
        let previous = self.state.snapshot();
        let changed = self.state.apply(scan.dirs, scan.files);
        if !changed {
            return None;
        }
        if self.state.encoded().len() > MAX_MANIFEST_BYTES as usize {
            self.state.restore(previous);
            return None;
        }
        let envelope = envelope_of(self.state.encoded());
        Some(frame_of(envelope.as_slice()))
    }
}

/// A change reaches a follower: one that holds an unsigned share's listing and
/// is handed an update frame holds the new listing, decoded.
pub proof fn law_an_update_reaches_a_follower<H>(held: SignedView, next: LiveView<H>)
    requires
        held.version == 0,
        live_wf(next),
    ensures
        ({
            let frame = manifest_frame(signed_manifest_bytes(unsigned(next.encoded)));
            &&& frame[0] == WATCH_FRAME_MANIFEST
            &&& watch_outcome(held, frame[0], frame.skip(1), None) == Ok::<
                (SignedView, ManifestView),
                WireError,
            >((unsigned(next.encoded), ManifestView { dirs: next.dirs, files: next.files }))
        }),
{
    let v = unsigned(next.encoded);
    let m = ManifestView { dirs: next.dirs, files: next.files };
    let body = signed_manifest_bytes(v);
    let frame = manifest_frame(body);
    assert(frame.skip(1) =~= body);
    assert(signed_manifest_of(body) == Ok::<SignedView, WireError>(v)) by {
        law_signed_manifest_round_trip(v, body);
    }
    assert(manifest_of(v.manifest) == Ok::<ManifestView, WireError>(m)) by {
        law_manifest_round_trip(m);
    }
    lemma_manifest_frame(held, body, v, m);
}

/// The ticket of a share. Only a protected share names its mesh: the peers of
/// any other derive the same mesh from the secret.
#[must_use]
pub fn share_ticket(
    addr: Vec<u8>,
    secret: [u8; 32],
    lookups: LookupOpts,
    protected: bool,
    mesh_id: String,
) -> (ticket: MountTicket)
    ensures
        ticket.addr@ == addr@,
        ticket.secret == secret,
        ticket.lookups == lookups,
        ticket.kind == TICKET_KIND_SHARE,
        ticket.flags == (if protected {
            TICKET_FLAG_PASSWORD
        } else {
            0
        }),
        ticket.mesh_id == (if protected {
            Some(mesh_id)
        } else {
            None
        }),
        ticket.author is None,
{
    MountTicket {
        addr,
        secret,
        lookups,
        kind: TICKET_KIND_SHARE,
        flags: if protected {
            TICKET_FLAG_PASSWORD
        } else {
            0
        },
        mesh_id: if protected {
            Some(mesh_id)
        } else {
            None
        },
        author: None,
    }
}

/// A read is clamped to the file: it begins where asked, and ends where asked or
/// at the end of the file, whichever is first. Nothing is read past the end or of
/// no length.
pub proof fn law_a_clamped_read_is_within_the_file(live: u64, offset: u64, len: u32)
    ensures
        live_range(live, offset, len) is None <==> len == 0 || offset >= live,
        live_range(live, offset, len) matches Some((start, end)) ==> {
            &&& start == offset
            &&& start < end <= live
            &&& end - start <= len
            &&& end == live || end - start == len
        },
{
}

/// A file is read through the handle that stands at its index, and an index
/// without one is refused.
pub proof fn law_a_file_is_read_through_its_handle<H>(tree: LiveView<H>, index: u32)
    ensures
        payload_at(tree, index) == (if index < tree.slots.len() {
            tree.slots[index as int]
        } else {
            None
        }),
{
}

/// The envelope of a share that nobody signs carries its listing, under the
/// version that any consumer takes.
pub proof fn law_an_unsigned_envelope_carries_the_listing(manifest: Seq<u8>)
    ensures
        unsigned(manifest).version == 0,
        unsigned(manifest).manifest == manifest,
        unsigned(manifest).signature.len() == 64,
        forall|i: int| 0 <= i < 64 ==> #[trigger] unsigned(manifest).signature[i] == 0,
        signed_manifest_of(signed_manifest_bytes(unsigned(manifest))) == Ok::<
            SignedView,
            WireError,
        >(unsigned(manifest)),
{
    law_signed_manifest_round_trip(unsigned(manifest), signed_manifest_bytes(unsigned(manifest)));
}

/// The first listing of a producer is what the scan found, in its order.
pub proof fn law_a_scan_is_listed_as_found<H>(scan: Scanned<H>, i: int)
    ensures
        scan_manifest(scan).dirs.len() == scan.dirs@.len(),
        scan_manifest(scan).files.len() == scan.files@.len(),
        0 <= i < scan.dirs@.len() ==> scan_manifest(scan).dirs[i] == scan.dirs@[i]@,
        0 <= i < scan.files@.len() ==> scan_manifest(scan).files[i] == scan.files@[i].0@,
{
}

/// A rescan is taken while a version is left and as long as every path is at most
/// 65 535 bytes and every count fits four.
pub proof fn law_a_rescan_is_taken_where_it_fits<H>(tree: LiveView<H>, scan: Scanned<H>)
    requires
        forall|i: int|
            0 <= i < scan.dirs@.len() ==> vstd::utf8::encode_utf8(
                (#[trigger] scan.dirs@[i]).rel_path@,
            ).len() <= 65_535,
        forall|i: int|
            0 <= i < scan.files@.len() ==> vstd::utf8::encode_utf8(
                (#[trigger] scan.files@[i]).0.rel_path@,
            ).len() <= 65_535,
    ensures
        takes_rescan(tree, scan) <==> tree.version < u64::MAX && scan.dirs@.len() <= 4_294_967_295
            && tree.files.len() + scan.files@.len() <= 4_294_967_295,
{
}

/// A scan with a path that is longer is not taken.
pub proof fn law_a_path_too_long_is_not_taken<H>(tree: LiveView<H>, scan: Scanned<H>, i: int)
    ensures
        0 <= i < scan.dirs@.len() && vstd::utf8::encode_utf8(scan.dirs@[i].rel_path@).len()
            > 65_535 ==> !takes_rescan(tree, scan),
        0 <= i < scan.files@.len() && vstd::utf8::encode_utf8(scan.files@[i].0.rel_path@).len()
            > 65_535 ==> !takes_rescan(tree, scan),
{
    if 0 <= i < scan.dirs@.len() && takes_rescan(tree, scan) {
        assert(fits16(scan.dirs@[i].rel_path@));
    }
    if 0 <= i < scan.files@.len() && takes_rescan(tree, scan) {
        assert(fits16(scan.files@[i].0.rel_path@));
    }
}

} // verus!
