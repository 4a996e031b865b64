//! Proving that a path can carry bulk before it is trusted with a share.
use crate::decimal::{dec, push_dec};
use crate::framing::MAX_READ_LEN;
use crate::manifest::{file_views, FileEntry, FileView};
use crate::text::text_of;
use vstd::prelude::*;

verus! {

/// How long a probe tolerates no progress at all, in milliseconds. The clock
/// starts over with every byte, so that a slow path passes.
pub const PROBE_STALL_MS: u64 = 10_000;

/// Bytes per read of a probe's body.
pub const PROBE_CHUNK_LEN: usize = 16_384;

/// Whether a file can be probed: it is there and has bytes.
pub open spec fn can_probe(f: FileView) -> bool {
    f.rel_path.len() > 0 && f.size > 0
}

/// Whether the file at a slot is the one to probe: the largest, and the last of
/// several as large.
pub open spec fn is_target(files: Seq<FileView>, slot: int) -> bool {
    &&& 0 <= slot < files.len()
    &&& can_probe(files[slot])
    &&& forall|i: int|
        0 <= i < files.len() && can_probe(#[trigger] files[i]) ==> files[i].size
            <= files[slot].size && (files[i].size == files[slot].size ==> i <= slot)
}

/// How much of a file a probe asks for: all of it, up to one read.
pub open spec fn probe_len(size: u64) -> u32 {
    if size < MAX_READ_LEN {
        size as u32
    } else {
        MAX_READ_LEN
    }
}

/// A slot as the read request can say it; zero where it cannot.
pub open spec fn slot_index(slot: int) -> u32 {
    if slot <= u32::MAX {
        slot as u32
    } else {
        0
    }
}

/// The slot of the file to probe.
pub open spec fn target_slot(files: Seq<FileView>) -> Option<int>
    decreases files.len(),
{
    if files.len() == 0 {
        None
    } else {
        let before = target_slot(files.drop_last());
        if can_probe(files.last()) && (before matches Some(b) ==> files[b].size
            <= files.last().size) {
            Some(files.len() - 1)
        } else {
            before
        }
    }
}

/// Which read proves a path: of the file to probe, all that one read can serve.
pub open spec fn probe_of(files: Seq<FileView>) -> Option<(u32, u32)> {
    match target_slot(files) {
        Some(slot) => Some((slot_index(slot), probe_len(files[slot].size))),
        None => None,
    }
}

proof fn lemma_target_slot(files: Seq<FileView>)
    ensures
        target_slot(files) matches Some(slot) ==> is_target(files, slot),
        target_slot(files) is None ==> forall|i: int|
            0 <= i < files.len() ==> !can_probe(#[trigger] files[i]),
    decreases files.len(),
{
    if files.len() > 0 {
        let short = files.drop_last();
        lemma_target_slot(short);
        match target_slot(files) {
            Some(slot) => {
                assert forall|i: int| 0 <= i < files.len() && can_probe(#[trigger] files[i]) implies
                    files[i].size <= files[slot].size && (files[i].size == files[slot].size ==> i
                    <= slot) by {
                    if i < short.len() {
                        assert(can_probe(short[i]));
                    }
                    if slot < short.len() {
                        assert(short[slot] == files[slot]);
                    }
                }
                if slot < short.len() {
                    assert(short[slot] == files[slot]);
                }
            },
            None => {
                assert forall|i: int| 0 <= i < files.len() implies !can_probe(
                    #[trigger] files[i],
                ) by {
                    if i < short.len() {
                        assert(!can_probe(short[i]));
                    }
                }
            },
        }
    }
}

/// Which file a probe reads, and how much of it: the largest one that is there,
/// and everything a read of it can serve. Nothing where no file has bytes.
#[must_use]
pub fn probe_target(files: &[FileEntry]) -> (target: Option<(u32, u32)>)
    ensures
        target == probe_of(file_views(files@)),
{
    let ghost views = file_views(files@);
    let mut best: Option<usize> = None;
    let mut i: usize = 0;
    while i < files.len()
        invariant
            0 <= i <= files@.len(),
            views == file_views(files@),
            match best {
                None => target_slot(views.take(i as int)) is None,
                Some(b) => b < i && target_slot(views.take(i as int)) == Some(b as int),
            },
        decreases files@.len() - i,
    {
        let entry = &files[i];
        assert(views[i as int] == entry@);
        assert(views.take(i as int + 1).drop_last() =~= views.take(i as int));
        if !entry.is_tombstone() && entry.size > 0 {
            match best {
                None => {
                    best = Some(i);
                },
                Some(b) => {
                    assert(views.take(i as int + 1)[b as int] == files@[b as int]@);
                    if files[b].size <= entry.size {
                        best = Some(i);
                    }
                },
            }
        }
        i += 1;
    }
    assert(views.take(i as int) =~= views);
    match best {
        None => None,
        Some(b) => {
            assert(views[b as int] == files@[b as int]@);
            let size: u64 = files[b].size;
            let want: u32 = if size < MAX_READ_LEN as u64 {
                size as u32
            } else {
                MAX_READ_LEN
            };
            let index: u32 = if b <= u32::MAX as usize {
                b as u32
            } else {
                0
            };
            Some((index, want))
        },
    }
}

/// A probe reads the largest file that is there, and there is nothing to probe
/// exactly where no file has bytes.
pub proof fn law_the_largest_file_is_probed(files: Seq<FileView>)
    ensures
        match target_slot(files) {
            Some(slot) => is_target(files, slot),
            None => forall|i: int| 0 <= i < files.len() ==> !can_probe(#[trigger] files[i]),
        },
{
    lemma_target_slot(files);
}

/// There is one file to probe at most.
pub proof fn law_the_probe_target_is_unique(files: Seq<FileView>, a: int, b: int)
    requires
        is_target(files, a),
        is_target(files, b),
    ensures
        a == b,
{
    assert(can_probe(files[a]) && can_probe(files[b]));
}

/// The refusal of a probe that was answered short.
pub open spec fn too_short(got: u32, want: u32) -> Seq<char> {
    "probe read answered "@ + dec(got as nat) + " of "@ + dec(want as nat)
        + " bytes: too short to prove bulk"@
}

/// Holds a probe's answer against what was asked for: all of it or nothing.
///
/// # Errors
/// The answer is shorter.
pub fn probe_answer(got: u32, want: u32) -> (out: Result<(), String>)
    ensures
        match out {
            Ok(_) => got >= want,
            Err(text) => got < want && text@ == too_short(got, want),
        },
{
    if got >= want {
        return Ok(());
    }
    let mut a: Vec<char> = Vec::new();
    push_dec(&mut a, got as u64);
    assert(a@ =~= dec(got as nat));
    let mut b: Vec<char> = Vec::new();
    push_dec(&mut b, want as u64);
    assert(b@ =~= dec(want as nat));
    let mut text = String::new();
    text.push_str("probe read answered ");
    text.push_str(text_of(a.as_slice()).as_str());
    text.push_str(" of ");
    text.push_str(text_of(b.as_slice()).as_str());
    text.push_str(" bytes: too short to prove bulk");
    assert(text@ =~= too_short(got, want));
    Err(text)
}

/// What one read of a probe's body came to.
#[derive(Debug, Clone, PartialEq, Eq)]
pub enum ProbeRead {
    /// This many bytes arrived.
    Bytes(usize),
    /// The stream ended.
    Ended,
    /// The read failed.
    Failed(String),
    /// Nothing arrived for the whole stall window.
    Stalled,
}

/// Where a probe stands after a read.
#[derive(Debug, Clone, PartialEq, Eq)]
pub enum ProbeStep {
    /// Read on, with the stall window starting over: this much is to come.
    More(usize),
    /// The path carried everything.
    Passed,
    Failed(String),
}

pub enum ProbeView {
    More(nat),
    Passed,
    Failed(Seq<char>),
}

impl View for ProbeStep {
    type V = ProbeView;

    open spec fn view(&self) -> ProbeView {
        match *self {
            ProbeStep::More(n) => ProbeView::More(n as nat),
            ProbeStep::Passed => ProbeView::Passed,
            ProbeStep::Failed(text) => ProbeView::Failed(text@),
        }
    }
}

/// Where a probe with `remaining` bytes to come stands.
pub open spec fn probing(remaining: nat) -> ProbeView {
    if remaining == 0 {
        ProbeView::Passed
    } else {
        ProbeView::More(remaining)
    }
}

/// What a read leads to. Any byte is progress; an end before everything came,
/// and a whole window without a byte, fail the path.
pub open spec fn drained(remaining: nat, read: ProbeRead) -> ProbeView {
    match read {
        ProbeRead::Bytes(n) => if n == 0 {
            ProbeView::Failed("probe read body ended early"@)
        } else if n >= remaining {
            ProbeView::Passed
        } else {
            ProbeView::More((remaining - n) as nat)
        },
        ProbeRead::Ended => ProbeView::Failed("probe read body ended early"@),
        ProbeRead::Failed(text) => ProbeView::Failed(text@),
        ProbeRead::Stalled => ProbeView::Failed(
            "probe read stalled: this path cannot carry bulk data"@,
        ),
    }
}

/// Where a probe stands before its first read.
#[must_use]
pub fn begin_drain(remaining: usize) -> (step: ProbeStep)
    ensures
        step@ == probing(remaining as nat),
{
    if remaining == 0 {
        ProbeStep::Passed
    } else {
        ProbeStep::More(remaining)
    }
}

/// Takes one read of a probe's body.
pub fn drain_with_stall_deadline(remaining: usize, read: ProbeRead) -> (step: ProbeStep)
    ensures
        step@ == drained(remaining as nat, read),
{
    match read {
        ProbeRead::Bytes(n) => {
            if n == 0 {
                ProbeStep::Failed("probe read body ended early".to_owned())
            } else if n >= remaining {
                ProbeStep::Passed
            } else {
                ProbeStep::More(remaining - n)
            }
        },
        ProbeRead::Ended => ProbeStep::Failed("probe read body ended early".to_owned()),
        ProbeRead::Failed(text) => ProbeStep::Failed(text),
        ProbeRead::Stalled => ProbeStep::Failed(
            "probe read stalled: this path cannot carry bulk data".to_owned(),
        ),
    }
}

/// How much of a probe a run of non-empty reads leaves.
pub open spec fn left_after(remaining: nat, reads: Seq<usize>) -> nat
    decreases reads.len(),
{
    if reads.len() == 0 {
        remaining
    } else {
        let before = left_after(remaining, reads.drop_last());
        if reads.last() >= before {
            0
        } else {
            (before - reads.last()) as nat
        }
    }
}

/// A slow path passes: as long as bytes keep arriving, however few at a time
/// and however many windows it takes, a probe goes on, and it has passed once
/// as many arrived as were asked for.
pub proof fn law_a_moving_path_passes(remaining: nat, reads: Seq<usize>, n: usize)
    requires
        n > 0,
        left_after(remaining, reads) > 0,
    ensures
        drained(left_after(remaining, reads), ProbeRead::Bytes(n)) == probing(
            left_after(remaining, reads.push(n)),
        ),
        !(drained(left_after(remaining, reads), ProbeRead::Bytes(n)) is Failed),
{
    assert(reads.push(n).drop_last() =~= reads);
}

/// A probe asks for the largest file that is there and has bytes, the last of
/// several as large, and for as much of it as one read can serve. Where any file
/// is there and has bytes, there is one to ask for.
pub proof fn law_a_probe_asks_for_all_it_can(files: Seq<FileView>, slot: int)
    requires
        0 <= slot < files.len(),
        files.len() <= 0x1_0000_0000,
        files[slot].rel_path.len() > 0,
        files[slot].size > 0,
    ensures
        match probe_of(files) {
            None => false,
            Some((index, len)) => {
                &&& index < files.len()
                &&& files[index as int].rel_path.len() > 0
                &&& files[slot].size <= files[index as int].size
                &&& (files[slot].size == files[index as int].size ==> slot <= index)
                &&& files[index as int].size <= 256 * 1024 ==> len == files[index as int].size
                &&& files[index as int].size > 256 * 1024 ==> len == 256 * 1024
            },
        },
{
    lemma_target_slot(files);
    assert(can_probe(files[slot]));
}

/// Where no file is there with bytes, nothing is asked for.
pub proof fn law_nothing_to_probe_in_an_empty_tree(files: Seq<FileView>)
    requires
        forall|i: int|
            0 <= i < files.len() ==> (#[trigger] files[i]).rel_path.len() == 0 || files[i].size
                == 0,
    ensures
        probe_of(files) is None,
{
    lemma_target_slot(files);
}

/// A probe is over with the last byte it asked for and not before. A read that
/// brought nothing, an end, an error and a stalled window each fail it.
pub proof fn law_a_probe_passes_with_the_last_byte(remaining: nat, n: usize, why: String)
    requires
        remaining > 0,
    ensures
        0 < n < remaining ==> drained(remaining, ProbeRead::Bytes(n)) == ProbeView::More(
            (remaining - n) as nat,
        ),
        n >= remaining ==> drained(remaining, ProbeRead::Bytes(n)) == ProbeView::Passed,
        drained(remaining, ProbeRead::Bytes(0)) is Failed,
        drained(remaining, ProbeRead::Ended) is Failed,
        drained(remaining, ProbeRead::Stalled) is Failed,
        drained(remaining, ProbeRead::Failed(why)) == ProbeView::Failed(why@),
        probing(remaining) == ProbeView::More(remaining),
        probing(0) == ProbeView::Passed,
{
}

/// What is left of a probe is what was asked for without what arrived.
pub proof fn law_what_arrives_is_taken_off(remaining: nat, reads: Seq<usize>)
    ensures
        ({
            let sum = reads.fold_left(0int, |s: int, n: usize| s + n);
            left_after(remaining, reads) == (if sum >= remaining {
                0int
            } else {
                remaining - sum
            })
        }),
        reads.fold_left(0int, |s: int, n: usize| s + n) >= 0,
    decreases reads.len(),
{
    if reads.len() > 0 {
        law_what_arrives_is_taken_off(remaining, reads.drop_last());
    }
}

} // verus!
