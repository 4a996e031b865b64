//! Answering one request stream, as steps.
//!
//! Reading, writing and asking the source happen outside. What comes back is an
//! event, and [`serve_stream`] says what to do next: a bad token closes the whole
//! connection, an unknown request drops only its stream, and everything the
//! source cannot vouch for is refused in the same way.
use crate::auth::{opens, ShareAuth, REASON_BAD_SECRET, REASON_UNAUTHORIZED};
use crate::chunks::{
    law_packed_bits_are_the_coverage, packed, ChunkMap, ChunkMapView, Coverage,
};
use crate::codec::{
    bytes_of, lemma_u32_of, lemma_u64_of, put_bytes, put_u32, u32_le, u32_of, u64_le, u64_of,
};
use crate::error::WireError;
use crate::framing::{
    chunk_map_bytes, decode_chunk_map_request, decode_chunk_request, decode_have_request,
    decode_read_request, encode_chunk_map, encode_have, have_bytes, index_of_body,
    lemma_addresses, read_of_body, response_len, verbatim, CLOSE_BAD_SECRET, CLOSE_UNAUTHORIZED, MAX_READ_LEN, OP_CHUNK, OP_CHUNK_MAP,
    OP_HAVE, OP_MANIFEST, OP_READ, OP_WATCH,
};
use crate::manifest::ReadStatus;
use vstd::prelude::*;

verus! {

/// What follows a write.
#[derive(Debug, Clone, Copy, PartialEq, Eq, Structural)]
pub enum After {
    /// Finish the stream and let the last bytes land.
    Settle,
    /// Finish the stream.
    Refused,
    /// Wait for the next watch frame.
    Watch,
    /// Drop the stream.
    Drop,
    /// Fail: the body was too long to announce.
    Oversize,
}

/// Where a stream stands.
#[derive(Debug, Clone, Copy, PartialEq, Eq, Structural)]
pub enum ServeState {
    /// The request header is awaited.
    Header,
    /// The body of a request is awaited.
    Body(u8),
    /// The source's answer is awaited.
    Asked(u8),
    /// A write is under way.
    Writing(After),
    /// The next watch frame is awaited.
    Streaming,
    /// Nothing more happens on this stream.
    Done,
}

/// What came back from outside. A `None` or `false` says that the peer went
/// away, or that the source declines.
#[derive(Debug, Clone, PartialEq, Eq)]
pub enum ServeEvent {
    Header(Option<[u8; 33]>),
    Body(Option<Vec<u8>>),
    Manifest(Option<Vec<u8>>),
    Subscribed(Option<Vec<u8>>),
    Read(ReadStatus, Vec<u8>),
    Row(Option<ChunkMap>),
    Chunk(Option<Vec<u8>>),
    Have(Option<Coverage>),
    Written(bool),
    Frame(Option<Vec<u8>>),
}

pub enum EventView {
    Header(Option<Seq<u8>>),
    Body(Option<Seq<u8>>),
    Manifest(Option<Seq<u8>>),
    Subscribed(Option<Seq<u8>>),
    Read(ReadStatus, Seq<u8>),
    Row(Option<ChunkMapView>),
    Chunk(Option<Seq<u8>>),
    Have(Option<Seq<bool>>),
    Written(bool),
    Frame(Option<Seq<u8>>),
}

/// The bytes an option holds.
pub open spec fn opt_bytes(bytes: Option<Vec<u8>>) -> Option<Seq<u8>> {
    match bytes {
        Some(b) => Some(b@),
        None => None,
    }
}

impl View for ServeEvent {
    type V = EventView;

    open spec fn view(&self) -> EventView {
        match *self {
            ServeEvent::Header(h) => EventView::Header(
                match h {
                    Some(b) => Some(b@),
                    None => None,
                },
            ),
            ServeEvent::Body(b) => EventView::Body(opt_bytes(b)),
            ServeEvent::Manifest(b) => EventView::Manifest(opt_bytes(b)),
            ServeEvent::Subscribed(b) => EventView::Subscribed(opt_bytes(b)),
            ServeEvent::Read(s, b) => EventView::Read(s, b@),
            ServeEvent::Row(r) => EventView::Row(
                match r {
                    Some(row) => Some(row@),
                    None => None,
                },
            ),
            ServeEvent::Chunk(b) => EventView::Chunk(opt_bytes(b)),
            ServeEvent::Have(c) => EventView::Have(
                match c {
                    Some(coverage) => Some(coverage@),
                    None => None,
                },
            ),
            ServeEvent::Written(ok) => EventView::Written(ok),
            ServeEvent::Frame(b) => EventView::Frame(opt_bytes(b)),
        }
    }
}

/// What to do outside.
#[derive(Debug, Clone, PartialEq, Eq)]
pub enum ServeAction {
    /// Read exactly this many bytes of request body.
    ReadBody(usize),
    AskManifest,
    Subscribe,
    AskRead(u32, u64, u32),
    AskRow(u32),
    AskChunk([u8; 32]),
    AskHave([u8; 32]),
    /// Write these bytes.
    Write(Vec<u8>),
    /// Wait for the next watch frame.
    NextFrame,
    /// Close the connection with a code and a reason.
    Close(u32, Vec<u8>),
    /// Finish the stream, and let the last bytes land before dropping it.
    Settle,
    /// Finish the stream.
    Finish,
    /// Drop the stream; that is no error.
    Drop,
    /// Give up: a write failed, or the body was too long to announce.
    Fail,
}

pub enum ActionView {
    ReadBody(nat),
    AskManifest,
    Subscribe,
    AskRead(u32, u64, u32),
    AskRow(u32),
    AskChunk(Seq<u8>),
    AskHave(Seq<u8>),
    Write(Seq<u8>),
    NextFrame,
    Close(u32, Seq<u8>),
    Settle,
    Finish,
    Drop,
    Fail,
}

impl View for ServeAction {
    type V = ActionView;

    open spec fn view(&self) -> ActionView {
        match *self {
            ServeAction::ReadBody(n) => ActionView::ReadBody(n as nat),
            ServeAction::AskManifest => ActionView::AskManifest,
            ServeAction::Subscribe => ActionView::Subscribe,
            ServeAction::AskRead(i, o, l) => ActionView::AskRead(i, o, l),
            ServeAction::AskRow(i) => ActionView::AskRow(i),
            ServeAction::AskChunk(a) => ActionView::AskChunk(a@),
            ServeAction::AskHave(r) => ActionView::AskHave(r@),
            ServeAction::Write(b) => ActionView::Write(b@),
            ServeAction::NextFrame => ActionView::NextFrame,
            ServeAction::Close(code, reason) => ActionView::Close(code, reason@),
            ServeAction::Settle => ActionView::Settle,
            ServeAction::Finish => ActionView::Finish,
            ServeAction::Drop => ActionView::Drop,
            ServeAction::Fail => ActionView::Fail,
        }
    }
}

pub type Stepped = (ServeState, ActionView);

/// Every answer: `status(1) ‖ len(u32) ‖ body`.
pub open spec fn reply_bytes(status: ReadStatus, body: Seq<u8>) -> Seq<u8> {
    seq![status.byte()] + u32_le(body.len() as u32) + body
}

pub open spec fn dropped() -> Stepped {
    (ServeState::Done, ActionView::Drop)
}

/// Writing an answer. One too long to announce stops behind its status.
pub open spec fn writes(status: ReadStatus, body: Seq<u8>, after: After) -> Stepped {
    if body.len() <= u32::MAX {
        (ServeState::Writing(after), ActionView::Write(reply_bytes(status, body)))
    } else {
        (
            ServeState::Writing(
                if after == After::Watch {
                    After::Drop
                } else {
                    After::Oversize
                },
            ),
            ActionView::Write(seq![status.byte()]),
        )
    }
}

/// The one answer for everything a source cannot vouch for.
pub open spec fn refused() -> Stepped {
    (ServeState::Writing(After::Refused), ActionView::Write(seq![ReadStatus::BadIndex.byte()]))
}

/// How a peer without the token is turned away.
pub open spec fn turned_away(protected: bool) -> Stepped {
    (
        ServeState::Done,
        if protected {
            ActionView::Close(CLOSE_UNAUTHORIZED, REASON_UNAUTHORIZED@)
        } else {
            ActionView::Close(CLOSE_BAD_SECRET, REASON_BAD_SECRET@)
        },
    )
}

/// What a request header leads to.
pub open spec fn on_header(token: Seq<u8>, protected: bool, header: Seq<u8>) -> Stepped {
    let op = header[32];
    if !opens(token, header) {
        turned_away(protected)
    } else if op == OP_MANIFEST {
        (ServeState::Asked(op), ActionView::AskManifest)
    } else if op == OP_WATCH {
        (ServeState::Asked(op), ActionView::Subscribe)
    } else if op == OP_READ {
        (ServeState::Body(op), ActionView::ReadBody(16))
    } else if op == OP_CHUNK_MAP {
        (ServeState::Body(op), ActionView::ReadBody(4))
    } else if op == OP_CHUNK || op == OP_HAVE {
        (ServeState::Body(op), ActionView::ReadBody(32))
    } else {
        dropped()
    }
}

/// What a request body leads to. The length cap of a read is tested here, so no
/// source is asked for an unbounded one.
pub open spec fn on_body(op: u8, body: Seq<u8>) -> Stepped {
    if op == OP_READ {
        match read_of_body(body) {
            Err(_) => dropped(),
            Ok((index, offset, len)) => if len > MAX_READ_LEN {
                writes(ReadStatus::LenOverCap, Seq::empty(), After::Settle)
            } else {
                (ServeState::Asked(op), ActionView::AskRead(index, offset, len))
            },
        }
    } else if op == OP_CHUNK_MAP {
        match index_of_body(body) {
            Err(_) => dropped(),
            Ok(index) => (ServeState::Asked(op), ActionView::AskRow(index)),
        }
    } else if op == OP_CHUNK && body.len() == 32 {
        (ServeState::Asked(op), ActionView::AskChunk(body))
    } else if op == OP_HAVE && body.len() == 32 {
        (ServeState::Asked(op), ActionView::AskHave(body))
    } else {
        dropped()
    }
}

/// What a source's answer leads to.
pub open spec fn on_answer(op: u8, event: EventView) -> Stepped {
    match event {
        EventView::Manifest(Some(body)) => if op == OP_MANIFEST {
            writes(ReadStatus::Success, body, After::Settle)
        } else {
            dropped()
        },
        EventView::Subscribed(Some(frame)) => if op == OP_WATCH {
            writes(ReadStatus::Success, frame, After::Watch)
        } else {
            dropped()
        },
        EventView::Read(status, data) => if op == OP_READ {
            writes(status, data, After::Settle)
        } else {
            dropped()
        },
        EventView::Row(row) => if op == OP_CHUNK_MAP {
            match row {
                Some(r) => writes(
                    ReadStatus::Success,
                    chunk_map_bytes(r.root, r.size, r.leaves),
                    After::Settle,
                ),
                None => refused(),
            }
        } else {
            dropped()
        },
        EventView::Chunk(bytes) => if op == OP_CHUNK {
            match bytes {
                Some(b) => writes(ReadStatus::Success, b, After::Settle),
                None => refused(),
            }
        } else {
            dropped()
        },
        EventView::Have(coverage) => if op == OP_HAVE {
            match coverage {
                Some(held) => writes(
                    ReadStatus::Success,
                    have_bytes(saturated(held.len()), packed(held)),
                    After::Settle,
                ),
                None => refused(),
            }
        } else {
            dropped()
        },
        _ => dropped(),
    }
}

/// A count, at most what the field can say.
pub open spec fn saturated(n: nat) -> u32 {
    if n <= u32::MAX {
        n as u32
    } else {
        u32::MAX
    }
}

/// What the end of a write leads to.
pub open spec fn on_written(after: After, ok: bool) -> Stepped {
    match after {
        After::Settle => if ok {
            (ServeState::Done, ActionView::Settle)
        } else {
            (ServeState::Done, ActionView::Fail)
        },
        After::Refused => if ok {
            (ServeState::Done, ActionView::Finish)
        } else {
            (ServeState::Done, ActionView::Fail)
        },
        After::Watch => if ok {
            (ServeState::Streaming, ActionView::NextFrame)
        } else {
            dropped()
        },
        After::Drop => dropped(),
        After::Oversize => (ServeState::Done, ActionView::Fail),
    }
}

/// The step a stream takes on an event. An event that its state does not wait
/// for drops it.
pub open spec fn stepped(
    token: Seq<u8>,
    protected: bool,
    state: ServeState,
    event: EventView,
) -> Stepped {
    match state {
        ServeState::Header => match event {
            EventView::Header(Some(header)) => on_header(token, protected, header),
            _ => dropped(),
        },
        ServeState::Body(op) => match event {
            EventView::Body(Some(body)) => on_body(op, body),
            _ => dropped(),
        },
        ServeState::Asked(op) => on_answer(op, event),
        ServeState::Writing(after) => match event {
            EventView::Written(ok) => on_written(after, ok),
            _ => dropped(),
        },
        ServeState::Streaming => match event {
            EventView::Frame(Some(frame)) => writes(ReadStatus::Success, frame, After::Watch),
            _ => dropped(),
        },
        ServeState::Done => dropped(),
    }
}

/// An answer's bytes.
///
/// # Errors
/// The body is too long to announce; its status byte is all that is written.
fn write_body(status: ReadStatus, body: &[u8], after: After) -> (out: (ServeState, ServeAction))
    ensures
        (out.0, out.1@) == writes(status, body@, after),
{
    let mut bytes: Vec<u8> = Vec::new();
    bytes.push(status.to_byte());
    if body.len() > u32::MAX as usize {
        assert(bytes@ =~= seq![status.byte()]);
        let then = match after {
            After::Watch => After::Drop,
            _ => After::Oversize,
        };
        return (ServeState::Writing(then), ServeAction::Write(bytes));
    }
    put_u32(&mut bytes, body.len() as u32);
    put_bytes(&mut bytes, body);
    assert(bytes@ =~= reply_bytes(status, body@));
    (ServeState::Writing(after), ServeAction::Write(bytes))
}

/// `BadIndex` and nothing else.
fn refuse() -> (out: (ServeState, ServeAction))
    ensures
        (out.0, out.1@) == refused(),
{
    let mut bytes: Vec<u8> = Vec::new();
    bytes.push(ReadStatus::BadIndex.to_byte());
    assert(bytes@ =~= seq![ReadStatus::BadIndex.byte()]);
    (ServeState::Writing(After::Refused), ServeAction::Write(bytes))
}

fn drop_stream() -> (out: (ServeState, ServeAction))
    ensures
        (out.0, out.1@) == dropped(),
{
    (ServeState::Done, ServeAction::Drop)
}

fn step_header(auth: &ShareAuth, header: &[u8; 33]) -> (out: (ServeState, ServeAction))
    ensures
        (out.0, out.1@) == on_header(auth.spec_token(), auth.spec_protected(), header@),
{
    if !auth.accepts(header.as_slice()) {
        let reason = vstd::slice::slice_to_vec(auth.refusal_reason());
        return (ServeState::Done, ServeAction::Close(auth.refusal_code(), reason));
    }
    let op: u8 = header[32];
    if op == OP_MANIFEST {
        (ServeState::Asked(op), ServeAction::AskManifest)
    } else if op == OP_WATCH {
        (ServeState::Asked(op), ServeAction::Subscribe)
    } else if op == OP_READ {
        (ServeState::Body(op), ServeAction::ReadBody(16))
    } else if op == OP_CHUNK_MAP {
        (ServeState::Body(op), ServeAction::ReadBody(4))
    } else if op == OP_CHUNK || op == OP_HAVE {
        (ServeState::Body(op), ServeAction::ReadBody(32))
    } else {
        drop_stream()
    }
}

fn step_body(op: u8, body: &[u8]) -> (out: (ServeState, ServeAction))
    ensures
        (out.0, out.1@) == on_body(op, body@),
{
    if op == OP_READ {
        match decode_read_request(body) {
            Err(_) => drop_stream(),
            Ok((index, offset, len)) => {
                if len > MAX_READ_LEN {
                    let nothing: Vec<u8> = Vec::new();
                    write_body(ReadStatus::LenOverCap, nothing.as_slice(), After::Settle)
                } else {
                    (ServeState::Asked(op), ServeAction::AskRead(index, offset, len))
                }
            },
        }
    } else if op == OP_CHUNK_MAP {
        match decode_chunk_map_request(body) {
            Err(_) => drop_stream(),
            Ok(index) => (ServeState::Asked(op), ServeAction::AskRow(index)),
        }
    } else if op == OP_CHUNK {
        match decode_chunk_request(body) {
            Err(_) => drop_stream(),
            Ok(address) => (ServeState::Asked(op), ServeAction::AskChunk(address)),
        }
    } else if op == OP_HAVE {
        match decode_have_request(body) {
            Err(_) => drop_stream(),
            Ok(root) => (ServeState::Asked(op), ServeAction::AskHave(root)),
        }
    } else {
        drop_stream()
    }
}

fn step_answer(op: u8, event: ServeEvent) -> (out: (ServeState, ServeAction))
    ensures
        (out.0, out.1@) == on_answer(op, event@),
{
    match event {
        ServeEvent::Manifest(Some(body)) => {
            if op == OP_MANIFEST {
                write_body(ReadStatus::Success, body.as_slice(), After::Settle)
            } else {
                drop_stream()
            }
        },
        ServeEvent::Subscribed(Some(frame)) => {
            if op == OP_WATCH {
                write_body(ReadStatus::Success, frame.as_slice(), After::Watch)
            } else {
                drop_stream()
            }
        },
        ServeEvent::Read(status, data) => {
            if op == OP_READ {
                write_body(status, data.as_slice(), After::Settle)
            } else {
                drop_stream()
            }
        },
        ServeEvent::Row(row) => {
            if op != OP_CHUNK_MAP {
                return drop_stream();
            }
            match row {
                None => refuse(),
                Some(row) => {
                    let body = encode_chunk_map(&row.root, row.size, row.leaves.as_slice());
                    write_body(ReadStatus::Success, body.as_slice(), After::Settle)
                },
            }
        },
        ServeEvent::Chunk(bytes) => {
            if op != OP_CHUNK {
                return drop_stream();
            }
            match bytes {
                None => refuse(),
                Some(bytes) => write_body(ReadStatus::Success, bytes.as_slice(), After::Settle),
            }
        },
        ServeEvent::Have(coverage) => {
            if op != OP_HAVE {
                return drop_stream();
            }
            match coverage {
                None => refuse(),
                Some(coverage) => {
                    let n: usize = coverage.len();
                    let chunks: u32 = if n <= u32::MAX as usize {
                        n as u32
                    } else {
                        u32::MAX
                    };
                    let bits = coverage.as_bits();
                    let body = encode_have(chunks, bits.as_slice());
                    write_body(ReadStatus::Success, body.as_slice(), After::Settle)
                },
            }
        },
        _ => drop_stream(),
    }
}

fn step_written(after: After, ok: bool) -> (out: (ServeState, ServeAction))
    ensures
        (out.0, out.1@) == on_written(after, ok),
{
    match after {
        After::Settle => if ok {
            (ServeState::Done, ServeAction::Settle)
        } else {
            (ServeState::Done, ServeAction::Fail)
        },
        After::Refused => if ok {
            (ServeState::Done, ServeAction::Finish)
        } else {
            (ServeState::Done, ServeAction::Fail)
        },
        After::Watch => if ok {
            (ServeState::Streaming, ServeAction::NextFrame)
        } else {
            drop_stream()
        },
        After::Drop => drop_stream(),
        After::Oversize => (ServeState::Done, ServeAction::Fail),
    }
}

/// The next state of a stream, and what to do outside. A stream starts in
/// [`ServeState::Header`] with its header being read.
#[must_use]
pub fn serve_stream(auth: &ShareAuth, state: ServeState, event: ServeEvent) -> (out: (
    ServeState,
    ServeAction,
))
    ensures
        (out.0, out.1@) == stepped(auth.spec_token(), auth.spec_protected(), state, event@),
{
    match state {
        ServeState::Header => match event {
            ServeEvent::Header(Some(header)) => step_header(auth, &header),
            _ => drop_stream(),
        },
        ServeState::Body(op) => match event {
            ServeEvent::Body(Some(body)) => step_body(op, body.as_slice()),
            _ => drop_stream(),
        },
        ServeState::Asked(op) => step_answer(op, event),
        ServeState::Writing(after) => match event {
            ServeEvent::Written(ok) => step_written(after, ok),
            _ => drop_stream(),
        },
        ServeState::Streaming => match event {
            ServeEvent::Frame(Some(frame)) => write_body(
                ReadStatus::Success,
                frame.as_slice(),
                After::Watch,
            ),
            _ => drop_stream(),
        },
        ServeState::Done => drop_stream(),
    }
}

/// Where a stream stands after a run of events.
pub open spec fn served(
    token: Seq<u8>,
    protected: bool,
    events: Seq<EventView>,
) -> ServeState
    decreases events.len(),
{
    if events.len() == 0 {
        ServeState::Header
    } else {
        stepped(token, protected, served(token, protected, events.drop_last()), events.last()).0
    }
}

/// Whether an action puts a question to the source.
pub open spec fn asks(action: ActionView) -> bool {
    action is AskManifest || action is Subscribe || action is AskRead || action is AskRow
        || action is AskChunk || action is AskHave
}

/// A peer whose header does not carry the token learns nothing: whatever it
/// sends, the source is never asked and no byte is written.
pub proof fn law_without_the_token_nothing_is_served(
    token: Seq<u8>,
    protected: bool,
    events: Seq<EventView>,
)
    requires
        events.len() > 0,
        events[0] matches EventView::Header(Some(header)) ==> !opens(token, header),
    ensures
        served(token, protected, events) == ServeState::Done,
        events.len() > 1 ==> {
            let action = stepped(
                token,
                protected,
                served(token, protected, events.drop_last()),
                events.last(),
            ).1;
            !asks(action) && !(action is Write)
        },
    decreases events.len(),
{
    if events.len() == 1 {
        assert(events.drop_last().len() == 0);
        reveal_with_fuel(served, 2);
    } else {
        assert(events.drop_last()[0] == events[0]);
        law_without_the_token_nothing_is_served(token, protected, events.drop_last());
    }
}

/// No source is asked for a read longer than the cap.
pub proof fn law_reads_are_capped(
    token: Seq<u8>,
    protected: bool,
    state: ServeState,
    event: EventView,
)
    ensures
        stepped(token, protected, state, event).1 matches ActionView::AskRead(_, _, len) ==> len
            <= MAX_READ_LEN,
{
}

/// Every refusal reads the same from outside, whatever could not be vouched
/// for.
pub proof fn law_refusals_are_alike(token: Seq<u8>, protected: bool)
    ensures
        stepped(token, protected, ServeState::Asked(OP_CHUNK), EventView::Chunk(None)) == refused(),
        stepped(token, protected, ServeState::Asked(OP_HAVE), EventView::Have(None)) == refused(),
        stepped(token, protected, ServeState::Asked(OP_CHUNK_MAP), EventView::Row(None))
            == refused(),
{
}

/// A stream that is done stays done.
pub proof fn law_a_finished_stream_stays_finished(
    token: Seq<u8>,
    protected: bool,
    event: EventView,
)
    ensures
        stepped(token, protected, ServeState::Done, event) == (ServeState::Done, ActionView::Drop),
{
}

/// What a consumer reads of a reply is its body's length, and behind it the
/// body.
pub proof fn law_reply_is_read_back(body: Seq<u8>, requested: u32)
    requires
        body.len() <= requested,
    ensures
        response_len(reply_bytes(ReadStatus::Success, body), requested) == Ok::<u32, WireError>(
            body.len() as u32,
        ),
        reply_bytes(ReadStatus::Success, body).skip(5) == body,
{
    crate::framing::law_answer_round_trip(body, requested);
    assert(reply_bytes(ReadStatus::Success, body) =~= crate::framing::answer_bytes(body));
    assert(reply_bytes(ReadStatus::Success, body).skip(5) =~= body);
}

/// The number four bytes stand for, the first counting least.
pub open spec fn number4(b: Seq<u8>) -> int {
    b[0] + 256 * b[1] + 65_536 * b[2] + 16_777_216 * b[3]
}

/// The number eight bytes stand for, the first counting least.
pub open spec fn number8(b: Seq<u8>) -> int {
    number4(b) + 4_294_967_296 * number4(b.skip(4))
}

/// Whether bytes are an answer: a status, the body's length in four bytes, and the
/// body.
pub open spec fn is_answer(bytes: Seq<u8>, status: u8, body: Seq<u8>) -> bool {
    &&& bytes.len() == 5 + body.len()
    &&& bytes[0] == status
    &&& number4(bytes.subrange(1, 5)) == body.len()
    &&& bytes.skip(5) == body
}

/// Whether a step writes an answer, and has the stream settle behind it.
pub open spec fn answers(step: Stepped, status: u8, body: Seq<u8>) -> bool {
    &&& step.0 == ServeState::Writing(After::Settle)
    &&& step.1 matches ActionView::Write(bytes) && is_answer(bytes, status, body)
}

pub proof fn lemma_number4(x: u32, rest: Seq<u8>)
    ensures
        number4(u32_le(x) + rest) == x,
        u32_le(x).len() == 4,
{
    let s = u32_le(x) + rest;
    let lo = (x % 0x1_0000) as u16;
    let hi = (x / 0x1_0000) as u16;
    assert(s[0] == (lo % 256) as u8 && s[1] == (lo / 256) as u8);
    assert(s[2] == (hi % 256) as u8 && s[3] == (hi / 256) as u8);
}

pub proof fn lemma_number8(x: u64, rest: Seq<u8>)
    ensures
        number8(u64_le(x) + rest) == x,
        u64_le(x).len() == 8,
{
    let lo = (x % 0x1_0000_0000) as u32;
    let hi = (x / 0x1_0000_0000) as u32;
    let s = u64_le(x) + rest;
    assert(s =~= u32_le(lo) + (u32_le(hi) + rest));
    lemma_number4(lo, u32_le(hi) + rest);
    lemma_number4(hi, rest);
    assert(s.skip(4) =~= u32_le(hi) + rest);
}

pub proof fn lemma_is_answer(status: ReadStatus, body: Seq<u8>)
    requires
        body.len() <= u32::MAX,
    ensures
        is_answer(reply_bytes(status, body), status.byte(), body),
{
    let bytes = reply_bytes(status, body);
    let n = body.len() as u32;
    lemma_number4(n, Seq::empty());
    assert(bytes.subrange(1, 5) =~= u32_le(n) + Seq::<u8>::empty());
    assert(bytes.skip(5) =~= body);
}

/// What the source gives is what the peer gets: the listing, the bytes of a read
/// under the status they came with, and a chunk. Each is announced with its
/// length and follows whole.
pub proof fn law_an_answer_is_what_the_source_gave(
    token: Seq<u8>,
    protected: bool,
    status: ReadStatus,
    data: Seq<u8>,
)
    requires
        data.len() <= u32::MAX,
    ensures
        answers(
            stepped(token, protected, ServeState::Asked(OP_MANIFEST), EventView::Manifest(Some(data))),
            0,
            data,
        ),
        answers(
            stepped(token, protected, ServeState::Asked(OP_CHUNK), EventView::Chunk(Some(data))),
            0,
            data,
        ),
        answers(
            stepped(token, protected, ServeState::Asked(OP_READ), EventView::Read(status, data)),
            match status {
                ReadStatus::Success => 0u8,
                ReadStatus::BadIndex => 1u8,
                ReadStatus::Io => 2u8,
                ReadStatus::LenOverCap => 3u8,
            },
            data,
        ),
{
    lemma_is_answer(ReadStatus::Success, data);
    lemma_is_answer(status, data);
}

/// A watch is a run of answers: the opening frame, and every frame that follows,
/// each written whole before the next is waited for. It ends when no frame comes
/// or a write fails.
pub proof fn law_a_watch_passes_on_every_frame(
    token: Seq<u8>,
    protected: bool,
    frame: Seq<u8>,
)
    requires
        frame.len() <= u32::MAX,
    ensures
        forall|state: ServeState, event: EventView|
            (state == ServeState::Asked(OP_WATCH) && event == EventView::Subscribed(Some(frame)))
                || (state == ServeState::Streaming && event == EventView::Frame(Some(frame)))
                ==> {
                let step = #[trigger] stepped(token, protected, state, event);
                &&& step.0 == ServeState::Writing(After::Watch)
                &&& step.1 matches ActionView::Write(bytes) && is_answer(bytes, 0, frame)
            },
        stepped(token, protected, ServeState::Writing(After::Watch), EventView::Written(true)) == (
            ServeState::Streaming,
            ActionView::NextFrame,
        ),
        stepped(token, protected, ServeState::Writing(After::Watch), EventView::Written(false)) == (
            ServeState::Done,
            ActionView::Drop,
        ),
        stepped(token, protected, ServeState::Streaming, EventView::Frame(None)) == (
            ServeState::Done,
            ActionView::Drop,
        ),
{
    lemma_is_answer(ReadStatus::Success, frame);
}

/// A row is answered with its root, its size, how many chunks it has, and their
/// addresses in order.
pub proof fn law_a_row_is_answered_whole(
    token: Seq<u8>,
    protected: bool,
    row: ChunkMapView,
    i: int,
)
    requires
        row.root.len() == 32,
        forall|j: int| 0 <= j < row.leaves.len() ==> (#[trigger] row.leaves[j]).len() == 32,
        44 + 32 * row.leaves.len() <= u32::MAX,
    ensures
        exists|body: Seq<u8>|
            {
                &&& #[trigger] answers(
                    stepped(
                        token,
                        protected,
                        ServeState::Asked(OP_CHUNK_MAP),
                        EventView::Row(Some(row)),
                    ),
                    0,
                    body,
                )
                &&& body.len() == 44 + 32 * row.leaves.len()
                &&& body.take(32) == row.root
                &&& number8(body.subrange(32, 40)) == row.size
                &&& number4(body.subrange(40, 44)) == row.leaves.len()
                &&& 0 <= i < row.leaves.len() ==> body.subrange(44 + 32 * i, 76 + 32 * i)
                    == row.leaves[i]
            },
{
    let body = chunk_map_bytes(row.root, row.size, row.leaves);
    let count = row.leaves.len() as u32;
    let list = bytes_of(row.leaves, verbatim());
    if row.leaves.len() > 0 {
        lemma_addresses(row.leaves, if 0 <= i < row.leaves.len() {
            i
        } else {
            0
        });
    }
    assert(list.len() == 32 * row.leaves.len());
    lemma_number8(row.size, Seq::empty());
    lemma_number4(count, Seq::empty());
    assert(body.take(32) =~= row.root);
    assert(body.subrange(32, 40) =~= u64_le(row.size) + Seq::<u8>::empty());
    assert(body.subrange(40, 44) =~= u32_le(count) + Seq::<u8>::empty());
    if 0 <= i < row.leaves.len() {
        assert(body.subrange(44 + 32 * i, 76 + 32 * i) =~= list.subrange(32 * i, 32 * i + 32));
    }
    lemma_is_answer(ReadStatus::Success, body);
    assert(answers(
        stepped(token, protected, ServeState::Asked(OP_CHUNK_MAP), EventView::Row(Some(row))),
        0,
        body,
    ));
}

/// What is held of a file is answered with the number of its chunks and one bit
/// for each, eight to a byte, the first in the lowest.
pub proof fn law_what_is_held_is_answered_bit_by_bit(
    token: Seq<u8>,
    protected: bool,
    held: Seq<bool>,
    p: int,
)
    requires
        held.len() <= u32::MAX,
    ensures
        exists|body: Seq<u8>|
            {
                &&& #[trigger] answers(
                    stepped(
                        token,
                        protected,
                        ServeState::Asked(OP_HAVE),
                        EventView::Have(Some(held)),
                    ),
                    0,
                    body,
                )
                &&& body.len() == 4 + (held.len() + 7) / 8
                &&& number4(body.take(4)) == held.len()
                &&& 0 <= p < held.len() ==> (body[4 + p / 8] & (1u8 << ((p % 8) as u8)) != 0)
                    == held[p]
            },
{
    let bits = packed(held);
    let n = held.len() as u32;
    let body = have_bytes(n, bits);
    lemma_number4(n, Seq::empty());
    assert(body.take(4) =~= u32_le(n) + Seq::<u8>::empty());
    if 0 <= p < held.len() {
        law_packed_bits_are_the_coverage(held, p);
        assert(body[4 + p / 8] == bits[p / 8]);
    }
    lemma_is_answer(ReadStatus::Success, body);
    assert(answers(
        stepped(token, protected, ServeState::Asked(OP_HAVE), EventView::Have(Some(held))),
        0,
        body,
    ));
}

/// What a source will not vouch for is one byte, and the stream is finished
/// behind it.
pub proof fn law_a_refusal_is_one_byte(token: Seq<u8>, protected: bool, op: u8, event: EventView)
    requires
        (op == OP_CHUNK && event == EventView::Chunk(None)) || (op == OP_HAVE && event
            == EventView::Have(None)) || (op == OP_CHUNK_MAP && event == EventView::Row(None)),
    ensures
        stepped(token, protected, ServeState::Asked(op), event) == (
            ServeState::Writing(After::Refused),
            ActionView::Write(seq![1u8]),
        ),
        stepped(token, protected, ServeState::Writing(After::Refused), EventView::Written(true))
            == (ServeState::Done, ActionView::Finish),
{
}

/// An answer that was written settles; one that could not be written fails.
pub proof fn law_a_written_answer_settles(token: Seq<u8>, protected: bool)
    ensures
        stepped(token, protected, ServeState::Writing(After::Settle), EventView::Written(true)) == (
            ServeState::Done,
            ActionView::Settle,
        ),
        stepped(token, protected, ServeState::Writing(After::Settle), EventView::Written(false))
            == (ServeState::Done, ActionView::Fail),
        stepped(token, protected, ServeState::Writing(After::Refused), EventView::Written(false))
            == (ServeState::Done, ActionView::Fail),
{
}

/// The source is asked for what the request says. Behind the token stands the
/// operation. A listing and a watch are asked for at once; the other requests have
/// a body of their own length, and the question is what the body spells out.
pub proof fn law_the_source_is_asked_what_was_requested(
    token: Seq<u8>,
    protected: bool,
    header: Seq<u8>,
    body: Seq<u8>,
)
    requires
        header.len() == 33,
        header.take(32) == token,
    ensures
        ({
            let first = stepped(token, protected, ServeState::Header, EventView::Header(Some(header)));
            let op = header[32];
            let second = stepped(token, protected, first.0, EventView::Body(Some(body)));
            &&& op == OP_MANIFEST ==> first == (ServeState::Asked(op), ActionView::AskManifest)
            &&& op == OP_WATCH ==> first == (ServeState::Asked(op), ActionView::Subscribe)
            &&& op == OP_READ ==> {
                &&& first.1 == ActionView::ReadBody(16)
                &&& body.len() == 16 && number4(body.skip(12)) <= 256 * 1024 ==> {
                    &&& second.0 == ServeState::Asked(op)
                    &&& second.1 matches ActionView::AskRead(index, offset, len) && index
                        == number4(body) && offset == number8(body.skip(4)) && len == number4(
                        body.skip(12),
                    )
                }
                &&& body.len() == 16 && number4(body.skip(12)) > 256 * 1024 ==> answers(
                    second,
                    3,
                    Seq::empty(),
                )
            }
            &&& op == OP_CHUNK_MAP ==> {
                &&& first.1 == ActionView::ReadBody(4)
                &&& body.len() == 4 ==> {
                    &&& second.0 == ServeState::Asked(op)
                    &&& second.1 matches ActionView::AskRow(index) && index == number4(body)
                }
            }
            &&& op == OP_CHUNK ==> {
                &&& first.1 == ActionView::ReadBody(32)
                &&& body.len() == 32 ==> second == (
                    ServeState::Asked(op),
                    ActionView::AskChunk(body),
                )
            }
            &&& op == OP_HAVE ==> {
                &&& first.1 == ActionView::ReadBody(32)
                &&& body.len() == 32 ==> second == (
                    ServeState::Asked(op),
                    ActionView::AskHave(body),
                )
            }
            &&& op != OP_MANIFEST && op != OP_WATCH && op != OP_READ && op != OP_CHUNK_MAP && op
                != OP_CHUNK && op != OP_HAVE ==> first == (ServeState::Done, ActionView::Drop)
        }),
{
    if body.len() >= 4 {
        lemma_u32_of(body);
        lemma_number4(u32_of(body), body.skip(4));
    }
    if body.len() == 16 {
        lemma_u64_of(body.skip(4));
        lemma_number8(u64_of(body.skip(4)), body.skip(4).skip(8));
        lemma_u32_of(body.skip(12));
        lemma_number4(u32_of(body.skip(12)), body.skip(12).skip(4));
        lemma_is_answer(ReadStatus::LenOverCap, Seq::empty());
    }
}

/// A peer without the token is turned away at its header, with the code and the
/// reason of the kind of share it is.
pub proof fn law_a_wrong_token_closes_the_connection(
    token: Seq<u8>,
    protected: bool,
    header: Seq<u8>,
)
    requires
        header.len() == 33,
        header.take(32) != token,
    ensures
        stepped(token, protected, ServeState::Header, EventView::Header(Some(header))) == (
            ServeState::Done,
            if protected {
                ActionView::Close(CLOSE_UNAUTHORIZED, REASON_UNAUTHORIZED@)
            } else {
                ActionView::Close(CLOSE_BAD_SECRET, REASON_BAD_SECRET@)
            },
        ),
{
}

/// An answer whose length does not fit four bytes stops behind its status: it fails
/// the stream, or ends a watch.
pub proof fn law_an_answer_too_long_stops_behind_its_status(
    token: Seq<u8>,
    protected: bool,
    data: Seq<u8>,
    ok: bool,
)
    requires
        data.len() > u32::MAX,
    ensures
        stepped(token, protected, ServeState::Asked(OP_MANIFEST), EventView::Manifest(Some(data)))
            == (ServeState::Writing(After::Oversize), ActionView::Write(seq![0u8])),
        stepped(token, protected, ServeState::Asked(OP_CHUNK), EventView::Chunk(Some(data))) == (
            ServeState::Writing(After::Oversize),
            ActionView::Write(seq![0u8]),
        ),
        stepped(
            token,
            protected,
            ServeState::Asked(OP_READ),
            EventView::Read(ReadStatus::Success, data),
        ) == (ServeState::Writing(After::Oversize), ActionView::Write(seq![0u8])),
        stepped(token, protected, ServeState::Writing(After::Oversize), EventView::Written(ok)) == (
            ServeState::Done,
            ActionView::Fail,
        ),
        stepped(token, protected, ServeState::Asked(OP_WATCH), EventView::Subscribed(Some(data)))
            == (ServeState::Writing(After::Drop), ActionView::Write(seq![0u8])),
        stepped(token, protected, ServeState::Streaming, EventView::Frame(Some(data))) == (
            ServeState::Writing(After::Drop),
            ActionView::Write(seq![0u8]),
        ),
        stepped(token, protected, ServeState::Writing(After::Drop), EventView::Written(ok)) == (
            ServeState::Done,
            ActionView::Drop,
        ),
{
}

} // verus!
