//! Copying a share into a tab's own storage, so that the tab can seed it.
use crate::framing::MAX_READ_LEN;
use crate::known_seeders::texts;
use crate::manifest::{file_views, FileEntry, FileView, ReadStatus};
use crate::serving::{encode_serving, increasing, serving_field};
use crate::text::{bytes_eq, chars_of, opt_text};
use std::collections::BTreeSet;
use vstd::laws_cmp::{
    group_laws_cmp, obeys_cmp, obeys_cmp_ord, obeys_cmp_partial_ord,
    obeys_partial_cmp_spec_properties,
};
use vstd::laws_eq::{group_laws_eq, obeys_eq, obeys_eq_spec_properties};
use vstd::prelude::*;
use vstd::std_specs::btree::{group_btree_axioms, increasing_seq};
use vstd::std_specs::cmp::OrdSpec;
use vstd::std_specs::iter::IteratorSpec;

verus! {

broadcast use {group_btree_axioms, group_laws_cmp};

/// Whether a path is the one asked for, or under it. A name counts only up to
/// a `/`, so `docs` does not take `docsbackup`.
pub open spec fn is_under(want: Seq<char>, path: Seq<char>) -> bool {
    path == want || (path.len() > want.len() && path.take(want.len() as int) == want
        && path[want.len() as int] == '/')
}

/// Whether a request selects a path. An empty one selects everything.
pub open spec fn is_wanted(only: Seq<Seq<char>>, path: Seq<char>) -> bool {
    only.len() == 0 || exists|i: int| 0 <= i < only.len() && is_under(#[trigger] only[i], path)
}

fn under(want: &str, path: &Vec<char>) -> (yes: bool)
    ensures
        yes == is_under(want@, path@),
{
    let name = chars_of(want);
    if name.len() > path.len() {
        return false;
    }
    let mut i: usize = 0;
    while i < name.len()
        invariant
            0 <= i <= name@.len(),
            name@ == want@,
            name@.len() <= path@.len(),
            forall|k: int| 0 <= k < i ==> path@[k] == name@[k],
        decreases name@.len() - i,
    {
        if path[i] != name[i] {
            assert(path@.take(name@.len() as int)[i as int] != name@[i as int]);
            return false;
        }
        i += 1;
    }
    assert(path@.take(name@.len() as int) =~= name@);
    if name.len() == path.len() {
        assert(path@ =~= name@);
        return true;
    }
    path[name.len()] == '/'
}

/// Whether a request selects a path: a file, or a directory and everything
/// under it.
#[must_use]
pub fn wanted(only: &[String], rel_path: &str) -> (yes: bool)
    ensures
        yes == is_wanted(texts(only@), rel_path@),
{
    if only.len() == 0 {
        return true;
    }
    let path = chars_of(rel_path);
    let mut i: usize = 0;
    while i < only.len()
        invariant
            0 <= i <= only@.len(),
            path@ == rel_path@,
            only@.len() > 0,
            forall|k: int| 0 <= k < i ==> !is_under(#[trigger] texts(only@)[k], rel_path@),
        decreases only@.len() - i,
    {
        assert(texts(only@)[i as int] == only@[i as int]@);
        if under(only[i].as_str(), &path) {
            return true;
        }
        i += 1;
    }
    false
}

/// A directory selects what is in it and not what merely starts with its name.
pub proof fn law_a_directory_selects_its_contents(dir: Seq<char>, rest: Seq<char>, c: char)
    requires
        c != '/',
    ensures
        is_wanted(seq![dir], dir + seq!['/'] + rest),
        is_wanted(seq![dir], dir),
        !is_wanted(seq![dir], dir.push(c) + rest),
{
    let inside = dir + seq!['/'] + rest;
    let beside = dir.push(c) + rest;
    assert(inside.take(dir.len() as int) =~= dir);
    assert(is_under(seq![dir][0], inside));
    assert(is_under(seq![dir][0], dir));
    assert(beside[dir.len() as int] == c);
    assert(beside.len() > dir.len());
    assert forall|i: int| 0 <= i < seq![dir].len() implies !is_under(
        #[trigger] seq![dir][i],
        beside,
    ) by {}
}

/// What a stored file is told apart by: its path, and what the origin says this
/// version of it is.
#[derive(Debug, Clone, PartialEq, Eq)]
pub struct FileId {
    pub key: String,
    pub size: u64,
    pub mtime: i64,
}

/// The store's name for a listed file.
#[must_use]
pub fn file_id(entry: &FileEntry) -> (id: FileId)
    ensures
        id.key@ == entry@.rel_path,
        id.size == entry@.size,
        id.mtime == entry@.mtime,
{
    FileId { key: entry.rel_path.clone(), size: entry.size, mtime: entry.mtime }
}

/// The slots held in full.
#[derive(Debug, Clone, PartialEq, Eq)]
pub struct HeldSet {
    slots: BTreeSet<u32>,
}

impl View for HeldSet {
    type V = Set<u32>;

    closed spec fn view(&self) -> Set<u32> {
        self.slots@
    }
}

/// The members of a finite set, increasing.
pub open spec fn in_order(slots: Set<u32>) -> Seq<u32> {
    choose|s: Seq<u32>| increasing(s) && s.to_set() == slots
}

proof fn lemma_one_order(a: Seq<u32>, b: Seq<u32>)
    requires
        increasing(a),
        increasing(b),
        a.to_set() == b.to_set(),
    ensures
        a == b,
    decreases a.len(),
{
    if a.len() == 0 {
        if b.len() > 0 {
            assert(b.to_set().contains(b[0]));
            assert(a.contains(b[0]));
        }
    } else if b.len() == 0 {
        assert(a.to_set().contains(a[0]));
        assert(b.contains(a[0]));
    } else {
        let x = a[a.len() - 1];
        let y = b[b.len() - 1];
        assert(a.to_set().contains(x) && b.to_set().contains(y));
        let i = choose|i: int| 0 <= i < b.len() && b[i] == x;
        let j = choose|j: int| 0 <= j < a.len() && a[j] == y;
        assert(b[i] <= y && a[j] <= x);
        let short = a.drop_last();
        let brief = b.drop_last();
        assert forall|z: u32| short.to_set().contains(z) == brief.to_set().contains(z) by {
            if short.contains(z) {
                let k = choose|k: int| 0 <= k < short.len() && short[k] == z;
                assert(a[k] == z && a[k] < x);
                assert(a.to_set().contains(z));
                let l = choose|l: int| 0 <= l < b.len() && b[l] == z;
                assert(brief[l] == z);
            }
            if brief.contains(z) {
                let k = choose|k: int| 0 <= k < brief.len() && brief[k] == z;
                assert(b[k] == z && b[k] < y);
                assert(b.to_set().contains(z));
                let l = choose|l: int| 0 <= l < a.len() && a[l] == z;
                assert(short[l] == z);
            }
        }
        assert(short.to_set() =~= brief.to_set());
        lemma_one_order(short, brief);
        assert(a =~= short.push(x));
        assert(b =~= brief.push(y));
    }
}

/// References to slots are ordered as the slots are.
proof fn lemma_slot_order()
    ensures
        obeys_cmp::<&u32>(),
{
    broadcast use {group_laws_cmp, group_laws_eq};

    reveal(obeys_eq_spec_properties);
    reveal(obeys_partial_cmp_spec_properties);
    reveal(obeys_cmp_partial_ord);
    reveal(obeys_cmp_ord);
    assert(obeys_cmp::<u32>());
    assert(obeys_eq::<&u32>());
}

impl HeldSet {
    #[must_use]
    pub fn new() -> (out: Self)
        ensures
            out@ == Set::<u32>::empty(),
    {
        HeldSet { slots: BTreeSet::new() }
    }

    pub fn insert(&mut self, slot: u32)
        ensures
            final(self)@ == old(self)@.insert(slot),
    {
        self.slots.insert(slot);
    }

    #[must_use]
    pub fn len(&self) -> (n: usize)
        ensures
            n == self@.len(),
    {
        self.slots.len()
    }

    /// The slots, increasing.
    #[must_use]
    pub fn slots(&self) -> (out: Vec<u32>)
        ensures
            out@ == in_order(self@),
            increasing(out@),
            out@.to_set() == self@,
    {
        let mut out: Vec<u32> = Vec::new();
        let slots = self.slots.iter();
        let ghost all = slots.remaining();
        proof {
            lemma_slot_order();
            assert(increasing_seq(all));
            assert forall|i: int, j: int| 0 <= i < j < all.len() implies *(#[trigger] all[i]) < *(
            #[trigger] all[j]) by {
                assert(OrdSpec::cmp_spec(&all[i], &all[j]) is Less);
            }
        }
        for slot in it: slots
            invariant
                it.seq() == all,
                out@.len() == it.index(),
                forall|j: int| 0 <= j < it.index() ==> #[trigger] out@[j] == *all[j],
        {
            out.push(*slot);
        }
        proof {
            assert(out@ =~= all.unref());
            assert(increasing(out@) && out@.to_set() == self@);
            lemma_one_order(out@, in_order(self@));
        }
        out
    }
}

/// Whether a slot counts as held: its file is there, and the store has all of
/// it.
pub open spec fn counts_held(files: Seq<FileView>, stored: Seq<bool>, slot: int) -> bool {
    0 <= slot < files.len() && slot < stored.len() && files[slot].rel_path.len() > 0 && stored[slot]
}

/// The slots of a listing that a store holds in full, by the store's answer for
/// each.
#[must_use]
pub fn held_in_store(files: &[FileEntry], stored: &[bool]) -> (held: HeldSet)
    requires
        files@.len() <= u32::MAX,
    ensures
        forall|slot: u32| #[trigger]
            held@.contains(slot) <==> counts_held(
                file_views(files@),
                stored@,
                slot as int,
            ),
{
    let mut held = HeldSet::new();
    let ghost views = file_views(files@);
    let mut i: usize = 0;
    while i < files.len() && i < stored.len()
        invariant
            0 <= i <= files@.len(),
            i <= stored@.len(),
            files@.len() <= u32::MAX,
            views == file_views(files@),
            forall|slot: u32| #[trigger]
                held@.contains(slot) <==> slot < i && counts_held(
                    views,
                    stored@,
                    slot as int,
                ),
        decreases files@.len() - i,
    {
        assert(views[i as int] == files@[i as int]@);
        if !files[i].is_tombstone() && stored[i] {
            held.insert(i as u32);
        }
        i += 1;
    }
    held
}

/// Reading a whole file, in pieces of the size the protocol allows.
#[derive(Debug, Clone, PartialEq, Eq)]
pub struct WholeRead {
    size: u64,
    bytes: Vec<u8>,
}

pub struct WholeView {
    pub size: u64,
    pub bytes: Seq<u8>,
}

impl View for WholeRead {
    type V = WholeView;

    closed spec fn view(&self) -> WholeView {
        WholeView { size: self.size, bytes: self.bytes@ }
    }
}

/// The next piece of a file to ask for: its offset and length.
pub open spec fn next_piece(v: WholeView) -> Option<(u64, u32)> {
    if v.bytes.len() >= v.size {
        None
    } else if v.size - v.bytes.len() < MAX_READ_LEN {
        Some((v.bytes.len() as u64, (v.size - v.bytes.len()) as u32))
    } else {
        Some((v.bytes.len() as u64, MAX_READ_LEN))
    }
}

impl WholeRead {
    #[must_use]
    pub fn begin(size: u64) -> (out: Self)
        ensures
            out@ == (WholeView { size, bytes: Seq::empty() }),
    {
        let out = WholeRead { size, bytes: Vec::new() };
        assert(out@.bytes =~= Seq::<u8>::empty());
        out
    }

    /// The next piece to ask for; nothing once the whole size is there.
    #[must_use]
    pub fn wanted(&self) -> (piece: Option<(u64, u32)>)
        ensures
            piece == next_piece(self@),
    {
        let got: u64 = self.bytes.len() as u64;
        if got >= self.size {
            return None;
        }
        if self.size - got < MAX_READ_LEN as u64 {
            Some((got, (self.size - got) as u32))
        } else {
            Some((got, MAX_READ_LEN))
        }
    }

    /// Takes a piece in. An empty one fails the read: short of its size a file
    /// has not ended, whatever the peer says.
    ///
    /// # Errors
    /// The piece is empty.
    pub fn push(&mut self, piece: &[u8]) -> (out: Result<(), &'static str>)
        ensures
            match out {
                Ok(_) => piece@.len() > 0 && final(self)@ == (WholeView {
                    bytes: old(self)@.bytes + piece@,
                    ..old(self)@
                }),
                Err(text) => piece@.len() == 0 && text@
                    == "the peer stopped short of the size the manifest describes"@ && final(self)@
                    == old(self)@,
            },
    {
        if piece.len() == 0 {
            return Err("the peer stopped short of the size the manifest describes");
        }
        crate::codec::put_bytes(&mut self.bytes, piece);
        Ok(())
    }

    /// What was read.
    #[must_use]
    pub fn finish(self) -> (bytes: Vec<u8>)
        ensures
            bytes@ == self@.bytes,
    {
        self.bytes
    }
}

/// A read that ends without failing has at least the size that was listed.
pub proof fn law_a_whole_read_is_whole(v: WholeView)
    ensures
        next_piece(v) is None <==> v.bytes.len() >= v.size,
        next_piece(v) matches Some((offset, len)) ==> offset == v.bytes.len() && 0 < len
            <= MAX_READ_LEN && offset + len <= v.size,
{
}

/// Whether an answer to a hash request goes on with a root. Anything but
/// success, or no answer at all, says that the peer cannot vouch, which is
/// ordinary.
#[must_use]
pub fn hash_follows(status: Option<u8>) -> (follows: bool)
    ensures
        follows == (status == Some(ReadStatus::Success.byte())),
{
    match status {
        None => false,
        Some(status) => status == ReadStatus::Success.to_byte(),
    }
}

/// What a sync has done so far.
#[derive(Debug, Clone, Copy, PartialEq, Eq, Structural)]
pub struct SyncReport {
    pub files: u32,
    pub bytes: u64,
    pub verified: u32,
    pub unverified: u32,
    pub skipped: u32,
}

/// A sync under way.
pub struct SyncRun {
    files: Vec<FileEntry>,
    only: Vec<String>,
    /// The next slot to look at.
    at: usize,
    report: SyncReport,
    held: HeldSet,
}

pub struct SyncView {
    pub files: Seq<FileView>,
    pub only: Seq<Seq<char>>,
    pub at: int,
    pub report: SyncReport,
    pub held: Set<u32>,
}

impl View for SyncRun {
    type V = SyncView;

    closed spec fn view(&self) -> SyncView {
        SyncView {
            files: file_views(self.files@),
            only: texts(self.only@),
            at: self.at as int,
            report: self.report,
            held: self.held@,
        }
    }
}

/// Whether the file at a slot is to be looked at: it is there, and selected.
pub open spec fn is_due(v: SyncView, slot: int) -> bool {
    v.files[slot].rel_path.len() > 0 && is_wanted(v.only, v.files[slot].rel_path)
}

/// Whether the file at a slot is passed over: it is there, and not selected.
pub open spec fn is_passed(v: SyncView, slot: int) -> bool {
    v.files[slot].rel_path.len() > 0 && !is_wanted(v.only, v.files[slot].rel_path)
}

/// How many files from `from` up to `to` are passed over.
pub open spec fn passed(v: SyncView, from: int, to: int) -> nat
    decreases to - from,
{
    if from >= to {
        0
    } else {
        passed(v, from, to - 1) + (if is_passed(v, to - 1) {
            1nat
        } else {
            0nat
        })
    }
}

/// The first slot from `from` on that is due; the end where none is.
pub open spec fn next_due(v: SyncView, from: int) -> int
    decreases v.files.len() - from,
{
    if from >= v.files.len() {
        v.files.len() as int
    } else if is_due(v, from) {
        from
    } else {
        next_due(v, from + 1)
    }
}

/// What a sync does next.
#[derive(Debug, Clone, PartialEq, Eq)]
pub enum SyncStep {
    /// Ask the store whether it holds this file in full.
    Check(u32, FileId),
    /// Everything has been looked at.
    Done,
}

impl SyncRun {
    /// What every run keeps: each file that was fetched was either proved or
    /// not, and no count is over the slots looked at.
    pub closed spec fn wf(&self) -> bool {
        &&& self.files@.len() <= u32::MAX
        &&& self.at <= self.files@.len()
        &&& self.report.files + self.report.skipped <= self.at
        &&& self.report.files == self.report.verified + self.report.unverified
    }

    /// Begins a sync of the selected part of a listing.
    #[must_use]
    pub fn begin(files: Vec<FileEntry>, only: Vec<String>, held: HeldSet) -> (run: Self)
        requires
            files@.len() <= u32::MAX,
        ensures
            run.wf(),
            run@ == (SyncView {
                files: file_views(files@),
                only: texts(only@),
                at: 0,
                report: SyncReport { files: 0, bytes: 0, verified: 0, unverified: 0, skipped: 0 },
                held: held@,
            }),
    {
        SyncRun {
            files,
            only,
            at: 0,
            report: SyncReport { files: 0, bytes: 0, verified: 0, unverified: 0, skipped: 0 },
            held,
        }
    }

    /// Goes to the next file that is due, and counts the ones passed over.
    pub fn advance(&mut self) -> (step: SyncStep)
        requires
            old(self).wf(),
        ensures
            final(self).wf(),
            ({
                let v = old(self)@;
                let at = next_due(v, v.at);
                &&& final(self)@ == (SyncView {
                    at,
                    report: SyncReport {
                        skipped: (v.report.skipped + passed(v, v.at, at)) as u32,
                        ..v.report
                    },
                    ..v
                })
                &&& match step {
                    SyncStep::Check(slot, id) => at < v.files.len() && slot == at && is_due(v, at)
                        && id.key@ == v.files[at].rel_path && id.size == v.files[at].size
                        && id.mtime == v.files[at].mtime,
                    SyncStep::Done => at == v.files.len(),
                }
            }),
    {
        let ghost v = self@;
        let ghost start = self.at as int;
        while self.at < self.files.len()
            invariant
                self.wf(),
                v == old(self)@,
                start == v.at,
                start <= self.at,
                self@.files == v.files,
                self@.only == v.only,
                self@.held == v.held,
                self.files@.len() == v.files.len(),
                self.report == (SyncReport {
                    skipped: (v.report.skipped + passed(v, start, self.at as int)) as u32,
                    ..v.report
                }),
                v.report.skipped + passed(v, start, self.at as int) <= u32::MAX,
                next_due(v, start) == next_due(v, self.at as int),
            decreases self.files@.len() - self.at,
        {
            let entry = &self.files[self.at];
            assert(v.files[self.at as int] == entry@);
            if !entry.is_tombstone() {
                if wanted(self.only.as_slice(), entry.rel_path.as_str()) {
                    assert(is_due(v, self.at as int));
                    return SyncStep::Check(self.at as u32, file_id(entry));
                }
                self.report.skipped = self.report.skipped + 1;
            }
            self.at = self.at + 1;
        }
        SyncStep::Done
    }

    /// The store holds the file that was checked: nothing to fetch.
    pub fn already_held(&mut self)
        requires
            old(self).wf(),
            old(self)@.at < old(self)@.files.len(),
        ensures
            final(self).wf(),
            ({
                let v = old(self)@;
                let after = final(self)@;
                &&& after.files == v.files && after.only == v.only && after.at == v.at + 1
                &&& after.report == (SyncReport {
                    skipped: (v.report.skipped + 1) as u32,
                    ..v.report
                })
                &&& after.held == v.held.insert(v.at as u32)
            }),
    {
        self.report.skipped = self.report.skipped + 1;
        self.held.insert(self.at as u32);
        self.at = self.at + 1;
    }

    /// The file that was checked has been fetched and stored, under the root
    /// `ours`; `theirs` is the root the origin gives for it, if it vouches for
    /// one. A root that differs fails the sync; none leaves the copy unproved,
    /// which is no failure.
    ///
    /// # Errors
    /// The roots differ.
    pub fn stored(&mut self, len: u64, ours: &[u8; 32], theirs: Option<[u8; 32]>) -> (out: Result<
        (),
        String,
    >)
        requires
            old(self).wf(),
            old(self)@.at < old(self)@.files.len(),
            old(self)@.report.bytes + len <= u64::MAX,
        ensures
            final(self).wf(),
            ({
                let v = old(self)@;
                let after = final(self)@;
                match out {
                    Err(text) => theirs is Some && theirs->Some_0@ != ours@ && after == v && text@
                        == v.files[v.at].rel_path
                        + " does not match the origin: the bytes were altered in transit, or the origin is serving content it did not hash"@,
                    Ok(_) => {
                        &&& theirs matches Some(root) ==> root@ == ours@
                        &&& after.files == v.files && after.only == v.only && after.at == v.at + 1
                        &&& after.report == (SyncReport {
                            files: (v.report.files + 1) as u32,
                            bytes: (v.report.bytes + len) as u64,
                            verified: (v.report.verified + (if theirs is Some {
                                1int
                            } else {
                                0int
                            })) as u32,
                            unverified: (v.report.unverified + (if theirs is Some {
                                0int
                            } else {
                                1int
                            })) as u32,
                            skipped: v.report.skipped,
                        })
                        &&& after.held == v.held.insert(v.at as u32)
                    },
                }
            }),
    {
        assert(self@.files[self@.at] == self.files@[self.at as int]@);
        match theirs {
            Some(theirs) => {
                if !bytes_eq(theirs.as_slice(), ours.as_slice()) {
                    let mut text = self.files[self.at].rel_path.clone();
                    text.push_str(" does not match the origin: the bytes were altered in transit, or the origin is serving content it did not hash");
                    return Err(text);
                }
                self.report.verified = self.report.verified + 1;
            },
            None => {
                self.report.unverified = self.report.unverified + 1;
            },
        }
        self.held.insert(self.at as u32);
        self.report.files = self.report.files + 1;
        self.report.bytes = self.report.bytes + len;
        self.at = self.at + 1;
        Ok(())
    }

    /// What has been done so far.
    #[must_use]
    pub fn report(&self) -> (report: SyncReport)
        requires
            self.wf(),
        ensures
            report == self@.report,
            report.files == report.verified + report.unverified,
            report.files + report.skipped <= self@.at <= self@.files.len(),
    {
        self.report
    }

    /// What is held, and how many slots the listing has: what a card says of
    /// them.
    #[must_use]
    pub fn serving(&self) -> (field: Option<String>)
        requires
            self.wf(),
        ensures
            opt_text(field) == serving_field(
                in_order(self@.held),
                self@.files.len() as int,
            ),
    {
        encode_serving(self.held.slots().as_slice(), self.files.len())
    }
}

/// A request selects a path where it names the path or a directory above it, and
/// an empty request selects everything.
pub proof fn law_a_request_selects_by_name_or_directory(only: Seq<Seq<char>>, path: Seq<char>)
    ensures
        is_wanted(only, path) <==> {
            ||| only.len() == 0
            ||| exists|i: int| 0 <= i < only.len() && #[trigger] only[i] == path
            ||| exists|i: int, rest: Seq<char>|
                0 <= i < only.len() && path == #[trigger] (only[i] + seq!['/'] + rest)
        },
{
    if only.len() > 0 && is_wanted(only, path) {
        let i = choose|i: int| 0 <= i < only.len() && is_under(#[trigger] only[i], path);
        if path != only[i] {
            let rest = path.skip(only[i].len() as int + 1);
            assert(path =~= only[i] + seq!['/'] + rest);
        }
    }
    if exists|i: int, rest: Seq<char>|
        0 <= i < only.len() && path == #[trigger] (only[i] + seq!['/'] + rest) {
        let (i, rest) = choose|i: int, rest: Seq<char>|
            0 <= i < only.len() && path == #[trigger] (only[i] + seq!['/'] + rest);
        assert(path.take(only[i].len() as int) =~= only[i]);
        assert(is_under(only[i], path));
    }
    if exists|i: int| 0 <= i < only.len() && #[trigger] only[i] == path {
        let i = choose|i: int| 0 <= i < only.len() && #[trigger] only[i] == path;
        assert(is_under(only[i], path));
    }
}

/// A file is asked for in order and in the largest pieces there are: each begins
/// where the bytes that are there end, and has 256 KiB or what is left.
pub proof fn law_a_file_is_read_in_whole_pieces(v: WholeView)
    ensures
        match next_piece(v) {
            None => v.bytes.len() >= v.size,
            Some((offset, len)) => {
                &&& v.bytes.len() < v.size
                &&& offset == v.bytes.len()
                &&& len == (if v.size - v.bytes.len() < 256 * 1024 {
                    v.size - v.bytes.len()
                } else {
                    262_144int
                })
            },
        },
{
}

/// A sync looks at every file that is listed and selected, in order, and passes
/// over the others: what comes next is the first such file, and what is counted as
/// passed over are the listed files before it, none of which is selected.
pub proof fn law_a_sync_looks_at_what_is_selected(v: SyncView, from: int)
    requires
        0 <= from <= v.files.len(),
    ensures
        ({
            let at = next_due(v, from);
            &&& from <= at <= v.files.len()
            &&& at < v.files.len() ==> v.files[at].rel_path.len() > 0 && is_wanted(
                v.only,
                v.files[at].rel_path,
            )
            &&& forall|slot: int|
                from <= slot < at ==> !((#[trigger] v.files[slot]).rel_path.len() > 0 && is_wanted(
                    v.only,
                    v.files[slot].rel_path,
                ))
            &&& passed(v, from, at) == v.files.subrange(from, at).filter(
                |file: FileView| file.rel_path.len() > 0,
            ).len()
        }),
{
    lemma_next_due(v, from);
    lemma_passed(v, from, next_due(v, from));
}

proof fn lemma_next_due(v: SyncView, from: int)
    requires
        0 <= from <= v.files.len(),
    ensures
        from <= next_due(v, from) <= v.files.len(),
        next_due(v, from) < v.files.len() ==> is_due(v, next_due(v, from)),
        forall|slot: int| from <= slot < next_due(v, from) ==> !#[trigger] is_due(v, slot),
        forall|slot: int|
            from <= slot < next_due(v, from) ==> !((#[trigger] v.files[slot]).rel_path.len() > 0
                && is_wanted(v.only, v.files[slot].rel_path)),
    decreases v.files.len() - from,
{
    if from < v.files.len() && !is_due(v, from) {
        lemma_next_due(v, from + 1);
    }
}

proof fn lemma_passed(v: SyncView, from: int, to: int)
    requires
        0 <= from <= to <= v.files.len(),
        forall|slot: int|
            from <= slot < to ==> !((#[trigger] v.files[slot]).rel_path.len() > 0 && is_wanted(
                v.only,
                v.files[slot].rel_path,
            )),
    ensures
        passed(v, from, to) == v.files.subrange(from, to).filter(
            |file: FileView| file.rel_path.len() > 0,
        ).len(),
    decreases to - from,
{
    reveal(Seq::filter);
    if from < to {
        lemma_passed(v, from, to - 1);
        assert(v.files.subrange(from, to).drop_last() =~= v.files.subrange(from, to - 1));
        assert(v.files.subrange(from, to).last() == v.files[to - 1]);
    }
}

/// A slot counts as held where its file is listed and the store has all of it.
pub proof fn law_what_counts_as_held(files: Seq<FileView>, stored: Seq<bool>, slot: int)
    ensures
        counts_held(files, stored, slot) <==> {
            &&& 0 <= slot < files.len()
            &&& slot < stored.len()
            &&& stored[slot]
            &&& files[slot].rel_path.len() > 0
        },
{
}

} // verus!
