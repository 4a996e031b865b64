//! The synthetic bench: echo and fill, for measuring a path.
use crate::auth::REASON_BAD_SECRET;
use crate::codec::{put_bytes, put_u32};
use crate::decimal::{dec, push_dec};
use crate::framing::{
    bench_prefix, decode_bench_request_prefix, BENCH_ECHO_INTERVAL_SECS, BENCH_KIND_ECHO, CLOSE_BAD_SECRET,
    DEFAULT_BENCH_DURATION_SECS, MAX_BENCH_ECHO_BYTES, MAX_BENCH_FILL_BYTES, OP_BENCH, WEBRTC_SIGNAL_ALPN,
};
use crate::lookup::LookupOpts;
use crate::manifest::ReadStatus;
use crate::serve::{is_answer, lemma_is_answer, lemma_number4, number4, opt_bytes, reply_bytes};
use crate::text::{
    bytes_eq, chars_of, lower, lower_text, quoted, quoted_text, text_eq, text_of, trim_chars,
    trimmed,
};
use crate::ticket::{
    MountTicket, TICKET_KIND_BENCH_RELAY, TICKET_KIND_BENCH_WEBRTC,
};
use vstd::prelude::*;
use vstd::slice::{slice_subrange, slice_to_vec};

verus! {

/// Whether a lowercase name asks for a bench over `WebRTC`.
pub open spec fn names_webrtc(name: Seq<char>) -> bool {
    name == "webrtc"@ || name == "webrtc_only"@ || name == "webrtc-only"@
}

/// Whether a lowercase name asks for a bench over the relay.
pub open spec fn names_relay(name: Seq<char>) -> bool {
    name == "relay"@ || name == "relay_only"@ || name == "relay-only"@ || name == "iroh_relay"@
        || name == "iroh-relay"@
}

/// The refusal of a bench transport.
pub open spec fn unknown_transport(name: Seq<char>) -> Seq<char> {
    "unknown transport "@ + quoted(name) + "; expected webrtc or relay"@
}

/// The ticket kind of a bench over a transport named in any case, and whether
/// it needs the `WebRTC` transport.
///
/// # Errors
/// Unknown transport.
pub fn bench_kind(transport: &str) -> (out: Result<(u8, bool), String>)
    ensures
        ({
            let name = lower(trimmed(transport@));
            if names_webrtc(name) {
                out == Ok::<(u8, bool), String>((TICKET_KIND_BENCH_WEBRTC, true))
            } else if names_relay(name) {
                out == Ok::<(u8, bool), String>((TICKET_KIND_BENCH_RELAY, false))
            } else {
                out is Err && out->Err_0@ == unknown_transport(name)
            }
        }),
{
    let chars = chars_of(transport);
    let name = lower_text(trim_chars(chars.as_slice()));
    if text_eq(name.as_str(), "webrtc") || text_eq(name.as_str(), "webrtc_only") || text_eq(
        name.as_str(),
        "webrtc-only",
    ) {
        return Ok((TICKET_KIND_BENCH_WEBRTC, true));
    }
    if text_eq(name.as_str(), "relay") || text_eq(name.as_str(), "relay_only") || text_eq(
        name.as_str(),
        "relay-only",
    ) || text_eq(name.as_str(), "iroh_relay") || text_eq(name.as_str(), "iroh-relay") {
        return Ok((TICKET_KIND_BENCH_RELAY, false));
    }
    let mut refusal = String::new();
    refusal.push_str("unknown transport ");
    refusal.push_str(quoted_text(name.as_str()).as_str());
    refusal.push_str("; expected webrtc or relay");
    assert(refusal@ =~= unknown_transport(name@));
    Err(refusal)
}

/// The ticket of a bench. It is synthetic, so nothing about it is protected.
#[must_use]
pub fn bench_ticket(addr: Vec<u8>, secret: [u8; 32], lookups: LookupOpts, kind: u8) -> (ticket:
    MountTicket)
    ensures
        ticket.addr@ == addr@,
        ticket.secret == secret,
        ticket.lookups == lookups,
        ticket.kind == kind,
        ticket.flags == 0,
        ticket.mesh_id is None,
        ticket.author is None,
{
    MountTicket { addr, secret, lookups, kind, flags: 0, mesh_id: None, author: None }
}

/// What to do with a connection to a bench.
#[derive(Debug, Clone, Copy, PartialEq, Eq, Structural)]
pub enum BenchRoute {
    /// Answer the `WebRTC` offer.
    Signal,
    /// Turn it away: a bench over the relay has no data channel to offer.
    Refuse,
    /// Serve bench requests.
    Serve,
}

/// Where a connection to a bench goes.
#[must_use]
pub fn bench_route(alpn: &[u8], with_webrtc: bool) -> (route: BenchRoute)
    ensures
        route == (if alpn@ != WEBRTC_SIGNAL_ALPN@ {
            BenchRoute::Serve
        } else if with_webrtc {
            BenchRoute::Signal
        } else {
            BenchRoute::Refuse
        }),
{
    if !bytes_eq(alpn, WEBRTC_SIGNAL_ALPN.as_slice()) {
        BenchRoute::Serve
    } else if with_webrtc {
        BenchRoute::Signal
    } else {
        BenchRoute::Refuse
    }
}

/// Where a bench stream stands.
#[derive(Debug, Clone, Copy, PartialEq, Eq, Structural)]
pub enum BenchState {
    Header,
    Prefix,
    /// An echo payload is awaited.
    Payload,
    Writing,
    Done,
}

/// What came back from outside; `None` and `false` say that the peer went away.
#[derive(Debug, Clone, PartialEq, Eq)]
pub enum BenchEvent {
    Header(Option<[u8; 33]>),
    Prefix(Option<[u8; 5]>),
    Payload(Option<Vec<u8>>),
    Written(bool),
}

/// What to do outside.
#[derive(Debug, Clone, PartialEq, Eq)]
pub enum BenchAction {
    ReadPrefix,
    ReadPayload(u32),
    Write(Vec<u8>),
    Close(u32, Vec<u8>),
    Finish,
    /// Drop the stream; that is no error.
    Drop,
    Fail,
}

pub enum BenchEventView {
    Header(Option<Seq<u8>>),
    Prefix(Option<Seq<u8>>),
    Payload(Option<Seq<u8>>),
    Written(bool),
}

pub enum BenchActionView {
    ReadPrefix,
    ReadPayload(u32),
    Write(Seq<u8>),
    Close(u32, Seq<u8>),
    Finish,
    Drop,
    Fail,
}

impl View for BenchEvent {
    type V = BenchEventView;

    open spec fn view(&self) -> BenchEventView {
        match *self {
            BenchEvent::Header(h) => BenchEventView::Header(
                match h {
                    Some(b) => Some(b@),
                    None => None,
                },
            ),
            BenchEvent::Prefix(p) => BenchEventView::Prefix(
                match p {
                    Some(b) => Some(b@),
                    None => None,
                },
            ),
            BenchEvent::Payload(b) => BenchEventView::Payload(opt_bytes(b)),
            BenchEvent::Written(ok) => BenchEventView::Written(ok),
        }
    }
}

impl View for BenchAction {
    type V = BenchActionView;

    open spec fn view(&self) -> BenchActionView {
        match *self {
            BenchAction::ReadPrefix => BenchActionView::ReadPrefix,
            BenchAction::ReadPayload(n) => BenchActionView::ReadPayload(n),
            BenchAction::Write(b) => BenchActionView::Write(b@),
            BenchAction::Close(code, reason) => BenchActionView::Close(code, reason@),
            BenchAction::Finish => BenchActionView::Finish,
            BenchAction::Drop => BenchActionView::Drop,
            BenchAction::Fail => BenchActionView::Fail,
        }
    }
}

/// The bytes a fill answers with: a short pattern that starts over in every
/// 16 KiB.
pub open spec fn fill_bytes(len: nat) -> Seq<u8> {
    Seq::new(len, |k: int| ((k % 16_384) % 251) as u8)
}

/// The step a bench stream takes on an event. An event that its state does not
/// wait for drops it.
pub open spec fn bench_stepped(secret: Seq<u8>, state: BenchState, event: BenchEventView) -> (
    BenchState,
    BenchActionView,
) {
    let dropped = (BenchState::Done, BenchActionView::Drop);
    match (state, event) {
        (BenchState::Header, BenchEventView::Header(Some(header))) => if header.take(32) != secret {
            (BenchState::Done, BenchActionView::Close(CLOSE_BAD_SECRET, REASON_BAD_SECRET@))
        } else if header[32] != OP_BENCH {
            dropped
        } else {
            (BenchState::Prefix, BenchActionView::ReadPrefix)
        },
        (BenchState::Prefix, BenchEventView::Prefix(Some(prefix))) => match bench_prefix(prefix) {
            Err(_) => (BenchState::Done, BenchActionView::Fail),
            Ok((kind, len)) => if len == 0 {
                dropped
            } else if kind == BENCH_KIND_ECHO {
                if len > MAX_BENCH_ECHO_BYTES {
                    dropped
                } else {
                    (BenchState::Payload, BenchActionView::ReadPayload(len))
                }
            } else if len > MAX_BENCH_FILL_BYTES {
                dropped
            } else {
                (
                    BenchState::Writing,
                    BenchActionView::Write(
                        reply_bytes(ReadStatus::Success, fill_bytes(len as nat)),
                    ),
                )
            },
        },
        (BenchState::Payload, BenchEventView::Payload(Some(payload))) => if payload.len()
            > MAX_BENCH_ECHO_BYTES {
            dropped
        } else {
            (
                BenchState::Writing,
                BenchActionView::Write(reply_bytes(ReadStatus::Success, payload)),
            )
        },
        (BenchState::Writing, BenchEventView::Written(true)) => (
            BenchState::Done,
            BenchActionView::Finish,
        ),
        (BenchState::Writing, BenchEventView::Written(false)) => (
            BenchState::Done,
            BenchActionView::Fail,
        ),
        _ => dropped,
    }
}

fn filled(len: u32) -> (out: Vec<u8>)
    ensures
        out@ == fill_bytes(len as nat),
{
    let mut out: Vec<u8> = Vec::new();
    let mut k: u32 = 0;
    while k < len
        invariant
            0 <= k <= len,
            out@ == fill_bytes(k as nat),
        decreases len - k,
    {
        out.push(((k % 16_384) % 251) as u8);
        k += 1;
        assert(out@ =~= fill_bytes(k as nat));
    }
    out
}

fn replied(body: &[u8]) -> (out: (BenchState, BenchAction))
    requires
        body@.len() <= u32::MAX,
    ensures
        (out.0, out.1@) == (
            BenchState::Writing,
            BenchActionView::Write(reply_bytes(ReadStatus::Success, body@)),
        ),
{
    let mut bytes: Vec<u8> = Vec::new();
    bytes.push(ReadStatus::Success.to_byte());
    put_u32(&mut bytes, body.len() as u32);
    put_bytes(&mut bytes, body);
    assert(bytes@ =~= reply_bytes(ReadStatus::Success, body@));
    (BenchState::Writing, BenchAction::Write(bytes))
}

/// The next state of a bench stream, and what to do outside. A stream starts in
/// [`BenchState::Header`] with its header being read.
#[must_use]
pub fn serve_bench_stream(secret: &[u8; 32], state: BenchState, event: BenchEvent) -> (out: (
    BenchState,
    BenchAction,
))
    ensures
        (out.0, out.1@) == bench_stepped(secret@, state, event@),
{
    match (state, event) {
        (BenchState::Header, BenchEvent::Header(Some(header))) => {
            let presented = slice_subrange(header.as_slice(), 0, 32);
            assert(presented@ =~= header@.take(32));
            if !bytes_eq(presented, secret.as_slice()) {
                return (
                    BenchState::Done,
                    BenchAction::Close(
                        CLOSE_BAD_SECRET,
                        slice_to_vec(REASON_BAD_SECRET.as_slice()),
                    ),
                );
            }
            if header[32] != OP_BENCH {
                return (BenchState::Done, BenchAction::Drop);
            }
            (BenchState::Prefix, BenchAction::ReadPrefix)
        },
        (BenchState::Prefix, BenchEvent::Prefix(Some(prefix))) => {
            let (kind, len): (u8, u32) = match decode_bench_request_prefix(prefix.as_slice()) {
                Err(_) => return (BenchState::Done, BenchAction::Fail),
                Ok(request) => request,
            };
            if len == 0 {
                return (BenchState::Done, BenchAction::Drop);
            }
            if kind == BENCH_KIND_ECHO {
                if len > MAX_BENCH_ECHO_BYTES {
                    return (BenchState::Done, BenchAction::Drop);
                }
                return (BenchState::Payload, BenchAction::ReadPayload(len));
            }
            if len > MAX_BENCH_FILL_BYTES {
                return (BenchState::Done, BenchAction::Drop);
            }
            let body = filled(len);
            replied(body.as_slice())
        },
        (BenchState::Payload, BenchEvent::Payload(Some(payload))) => {
            if payload.len() > MAX_BENCH_ECHO_BYTES as usize {
                return (BenchState::Done, BenchAction::Drop);
            }
            replied(payload.as_slice())
        },
        (BenchState::Writing, BenchEvent::Written(ok)) => {
            if ok {
                (BenchState::Done, BenchAction::Finish)
            } else {
                (BenchState::Done, BenchAction::Fail)
            }
        },
        _ => (BenchState::Done, BenchAction::Drop),
    }
}

/// What an echo sends back is what it was sent.
pub proof fn law_an_echo_is_the_payload(secret: Seq<u8>, payload: Seq<u8>)
    requires
        payload.len() <= MAX_BENCH_ECHO_BYTES,
    ensures
        bench_stepped(secret, BenchState::Payload, BenchEventView::Payload(Some(payload))).1
            == BenchActionView::Write(reply_bytes(ReadStatus::Success, payload)),
        reply_bytes(ReadStatus::Success, payload).skip(5) == payload,
{
    assert(reply_bytes(ReadStatus::Success, payload).skip(5) =~= payload);
}

/// The data path a bench ticket asks for.
#[derive(Debug, Clone, Copy, PartialEq, Eq, Structural)]
pub enum BenchPath {
    WebRtc,
    /// The relay, and nothing else: a direct path would be measured under its
    /// label.
    Relay,
}

impl BenchPath {
    pub open spec fn text(self) -> Seq<char> {
        match self {
            BenchPath::WebRtc => "webrtc"@,
            BenchPath::Relay => "relay"@,
        }
    }

    /// The label of the path.
    pub fn label(self) -> (label: &'static str)
        ensures
            label@ == self.text(),
    {
        match self {
            BenchPath::WebRtc => "webrtc",
            BenchPath::Relay => "relay",
        }
    }
}

/// The refusal of a ticket that is none of a bench.
pub open spec fn no_bench(kind: u8) -> Seq<char> {
    "ticket has no bench transport (kind="@ + dec(kind as nat)
        + "); produce with --transport webrtc|relay"@
}

/// The data path a bench ticket asks for.
///
/// # Errors
/// The ticket's kind is none a consumer here can bench.
pub fn bench_path(kind: u8) -> (out: Result<BenchPath, String>)
    ensures
        if kind == TICKET_KIND_BENCH_RELAY {
            out == Ok::<BenchPath, String>(BenchPath::Relay)
        } else if kind == TICKET_KIND_BENCH_WEBRTC {
            out == Ok::<BenchPath, String>(BenchPath::WebRtc)
        } else {
            out is Err && out->Err_0@ == no_bench(kind)
        },
{
    if kind == TICKET_KIND_BENCH_RELAY {
        return Ok(BenchPath::Relay);
    }
    if kind == TICKET_KIND_BENCH_WEBRTC {
        return Ok(BenchPath::WebRtc);
    }
    let mut digits: Vec<char> = Vec::new();
    push_dec(&mut digits, kind as u64);
    assert(digits@ =~= dec(kind as nat));
    let mut refusal = String::new();
    refusal.push_str("ticket has no bench transport (kind=");
    refusal.push_str(text_of(digits.as_slice()).as_str());
    refusal.push_str("); produce with --transport webrtc|relay");
    assert(refusal@ =~= no_bench(kind));
    Err(refusal)
}

/// How long a bench measures, in seconds: what was asked for, but at least one.
#[must_use]
pub fn bench_window(duration_secs: Option<u64>) -> (secs: u64)
    ensures
        secs == (match duration_secs {
            None => DEFAULT_BENCH_DURATION_SECS,
            Some(0) => 1,
            Some(n) => n,
        }),
{
    match duration_secs {
        None => DEFAULT_BENCH_DURATION_SECS,
        Some(n) => {
            if n == 0 {
                1
            } else {
                n
            }
        },
    }
}

/// How long a bench goes on between two reports of its progress.
pub const BENCH_TICK_MS: u64 = 5_000;

/// A measuring window under way. Times are in milliseconds since it began.
#[derive(Debug, Clone, Copy, PartialEq, Eq, Structural)]
pub struct Window {
    /// How long the window is.
    pub secs: u64,
    /// From when on the next echo is due.
    pub next_echo: u64,
    /// From when on the next report is due.
    pub next_tick: u64,
    /// Whether an echo has come back.
    pub echoed: bool,
    /// Whether the window has run out.
    pub over: bool,
}

/// What a measuring window has come to.
#[derive(Debug, Clone, Copy, PartialEq, Eq, Structural)]
pub enum WindowEvent {
    Started,
    Echoed,
    Filled,
}

/// What a measuring window is to do.
#[derive(Debug, Clone, Copy, PartialEq, Eq, Structural)]
pub enum WindowWork {
    Echo,
    Fill,
    End,
}

/// One step of a measuring window: the whole seconds to report first, if a report
/// is due, and the work.
#[derive(Debug, Clone, Copy, PartialEq, Eq, Structural)]
pub struct WindowAction {
    pub tick: Option<u64>,
    pub work: WindowWork,
}

/// A sum, or the largest number.
pub open spec fn at_most_u64(n: int) -> u64 {
    if n <= u64::MAX {
        n as u64
    } else {
        u64::MAX
    }
}

/// A window once an event is taken in: an echo that came back makes the next one
/// due an interval later.
pub open spec fn window_after(state: Window, event: WindowEvent, now: u64) -> Window {
    match event {
        WindowEvent::Echoed => Window {
            echoed: true,
            next_echo: at_most_u64(now + BENCH_ECHO_INTERVAL_SECS * 1_000),
            ..state
        },
        _ => state,
    }
}

/// What a window does next. While time is left it reports when a report is due,
/// and echoes when an echo is due; all other time it fills. Once out of time it ends, after one echo where none came back before.
pub open spec fn window_stepped(state: Window, event: WindowEvent, now: u64) -> (
    Window,
    WindowAction,
) {
    let state = window_after(state, event, now);
    if !state.over && now < state.secs * 1_000 {
        let due = now >= state.next_tick;
        (
            if due {
                Window { next_tick: at_most_u64(now + BENCH_TICK_MS), ..state }
            } else {
                state
            },
            WindowAction {
                tick: if due {
                    Some(now / 1_000)
                } else {
                    None
                },
                work: if now >= state.next_echo {
                    WindowWork::Echo
                } else {
                    WindowWork::Fill
                },
            },
        )
    } else {
        (
            Window { over: true, ..state },
            WindowAction {
                tick: None,
                work: if state.echoed {
                    WindowWork::End
                } else {
                    WindowWork::Echo
                },
            },
        )
    }
}

impl Window {
    /// A window of some seconds that begins now: an echo is due at once, a report
    /// in a while.
    pub fn new(secs: u64) -> (window: Self)
        ensures
            window == (Window {
                secs,
                next_echo: 0,
                next_tick: BENCH_TICK_MS,
                echoed: false,
                over: false,
            }),
    {
        Window { secs, next_echo: 0, next_tick: BENCH_TICK_MS, echoed: false, over: false }
    }
}

/// Drives a measuring window: what to report and do at a time, given what has
/// come of the step before.
pub fn window_step(state: Window, event: WindowEvent, now: u64) -> (out: (Window, WindowAction))
    ensures
        out == window_stepped(state, event, now),
{
    let mut next = state;
    if let WindowEvent::Echoed = event {
        next.echoed = true;
        next.next_echo = now.saturating_add(BENCH_ECHO_INTERVAL_SECS * 1_000);
    }
    assert(next == window_after(state, event, now));
    let seconds: u64 = now / 1_000;
    if !next.over && seconds < next.secs {
        let work = if now >= next.next_echo {
            WindowWork::Echo
        } else {
            WindowWork::Fill
        };
        let mut tick: Option<u64> = None;
        if now >= next.next_tick {
            tick = Some(seconds);
            next.next_tick = now.saturating_add(BENCH_TICK_MS);
        }
        (next, WindowAction { tick, work })
    } else {
        next.over = true;
        let work = if next.echoed {
            WindowWork::End
        } else {
            WindowWork::Echo
        };
        (next, WindowAction { tick: None, work })
    }
}

/// A window never reports more than its length, never ends without an echo, and once out of time it fills no more:
/// what is left to do is one echo at most.
pub proof fn law_a_window_ends_with_an_echo(state: Window, event: WindowEvent, now: u64)
    ensures
        window_stepped(state, event, now).1.tick matches Some(seconds) ==> seconds <= state.secs,
        window_stepped(state, event, now).1.work == WindowWork::End ==> window_stepped(
            state,
            event,
            now,
        ).0.echoed,
        state.over || now >= state.secs * 1_000 ==> {
            &&& window_stepped(state, event, now).0.over
            &&& window_stepped(state, event, now).1.work != WindowWork::Fill
            &&& forall|later: u64| #[trigger]
                window_stepped(
                    window_stepped(state, event, now).0,
                    WindowEvent::Echoed,
                    later,
                ).1.work == WindowWork::End
        },
{
}

/// A bench goes over the transport that is named, under any of its names.
pub proof fn law_a_bench_transport_has_its_names(name: Seq<char>)
    ensures
        names_webrtc(name) <==> seq!["webrtc"@, "webrtc_only"@, "webrtc-only"@].contains(name),
        names_relay(name) <==> seq![
            "relay"@,
            "relay_only"@,
            "relay-only"@,
            "iroh_relay"@,
            "iroh-relay"@,
        ].contains(name),
{
    let a = seq!["webrtc"@, "webrtc_only"@, "webrtc-only"@];
    assert(a[0] == "webrtc"@ && a[1] == "webrtc_only"@ && a[2] == "webrtc-only"@);
    let b = seq!["relay"@, "relay_only"@, "relay-only"@, "iroh_relay"@, "iroh-relay"@];
    assert(b[0] == "relay"@ && b[1] == "relay_only"@ && b[2] == "relay-only"@);
    assert(b[3] == "iroh_relay"@ && b[4] == "iroh-relay"@);
}

/// A bench stream opens with the secret and the operation. A wrong secret closes
/// the connection; another operation drops the stream.
pub proof fn law_a_bench_stream_opens_with_its_secret(secret: Seq<u8>, header: Seq<u8>)
    requires
        header.len() == 33,
    ensures
        ({
            let step = bench_stepped(
                secret,
                BenchState::Header,
                BenchEventView::Header(Some(header)),
            );
            &&& header.subrange(0, 32) != secret ==> step == (
                BenchState::Done,
                BenchActionView::Close(1, REASON_BAD_SECRET@),
            )
            &&& header.subrange(0, 32) == secret && header[32] == 4 ==> step == (
                BenchState::Prefix,
                BenchActionView::ReadPrefix,
            )
            &&& header.subrange(0, 32) == secret && header[32] != 4 ==> step == (
                BenchState::Done,
                BenchActionView::Drop,
            )
        }),
{
    assert(header.take(32) =~= header.subrange(0, 32));
}

/// An echo of up to 64 KiB is read; a fill of up to 1 MiB is answered at once, with
/// as many bytes as were asked for. Nothing, and more than that, drops the stream;
/// another kind fails it.
pub proof fn law_a_bench_request_is_answered(secret: Seq<u8>, prefix: Seq<u8>)
    requires
        prefix.len() == 5,
    ensures
        ({
            let step = bench_stepped(
                secret,
                BenchState::Prefix,
                BenchEventView::Prefix(Some(prefix)),
            );
            let len = number4(prefix.skip(1));
            &&& prefix[0] > 1 ==> step == (BenchState::Done, BenchActionView::Fail)
            &&& prefix[0] == 0 && 0 < len <= 65_536 ==> step.0 is Payload && (
            step.1 matches BenchActionView::ReadPayload(n) && n == len)
            &&& prefix[0] == 0 && (len == 0 || len > 65_536) ==> step == (
                BenchState::Done,
                BenchActionView::Drop,
            )
            &&& prefix[0] == 1 && (len == 0 || len > 1_048_576) ==> step == (
                BenchState::Done,
                BenchActionView::Drop,
            )
            &&& prefix[0] == 1 && 0 < len <= 1_048_576 ==> step.0 is Writing && (
            step.1 matches BenchActionView::Write(bytes) && is_answer(
                bytes,
                0,
                Seq::new(len as nat, |k: int| ((k % 16_384) % 251) as u8),
            ))
        }),
{
    let rest = prefix.skip(1);
    let len = crate::codec::u32_of(rest);
    crate::codec::lemma_u32_of(rest);
    lemma_number4(len, Seq::empty());
    assert(rest =~= crate::codec::u32_le(len) + Seq::<u8>::empty());
    assert(number4(rest) == len);
    lemma_is_answer(ReadStatus::Success, fill_bytes(len as nat));
    assert(fill_bytes(len as nat) =~= Seq::new(
        number4(rest) as nat,
        |k: int| ((k % 16_384) % 251) as u8,
    ));
}

/// An echo of up to 64 KiB is answered with itself. What was written ends the
/// stream, and what could not be fails it.
pub proof fn law_a_bench_stream_ends_with_its_answer(secret: Seq<u8>, payload: Seq<u8>)
    requires
        payload.len() <= 65_536,
    ensures
        ({
            let step = bench_stepped(
                secret,
                BenchState::Payload,
                BenchEventView::Payload(Some(payload)),
            );
            step.0 is Writing && (step.1 matches BenchActionView::Write(bytes) && is_answer(
                bytes,
                0,
                payload,
            ))
        }),
        bench_stepped(secret, BenchState::Writing, BenchEventView::Written(true)) == (
            BenchState::Done,
            BenchActionView::Finish,
        ),
        bench_stepped(secret, BenchState::Writing, BenchEventView::Written(false)) == (
            BenchState::Done,
            BenchActionView::Fail,
        ),
{
    lemma_is_answer(ReadStatus::Success, payload);
}

/// While time is left a window echoes when an echo is due, fills when none is, and
/// reports the whole seconds when a report is due, the next five seconds later. An
/// echo that came back makes the next one due a second later.
pub proof fn law_a_window_measures_while_time_is_left(state: Window, event: WindowEvent, now: u64)
    requires
        !state.over,
        now < state.secs * 1_000,
        now < 0x7fff_ffff_ffff_ffff,
    ensures
        ({
            let step = window_stepped(state, event, now);
            &&& event == WindowEvent::Echoed ==> step.0.echoed && step.0.next_echo == now + 1_000
                && step.1.work == WindowWork::Fill
            &&& event != WindowEvent::Echoed ==> step.0.echoed == state.echoed && step.0.next_echo
                == state.next_echo && step.1.work == (if now >= state.next_echo {
                WindowWork::Echo
            } else {
                WindowWork::Fill
            })
            &&& !step.0.over
            &&& step.0.secs == state.secs
            &&& now >= state.next_tick ==> step.0.next_tick == now + 5_000 && (
            step.1.tick matches Some(seconds) && seconds * 1_000 <= now < (seconds + 1) * 1_000)
            &&& now < state.next_tick ==> step.0.next_tick == state.next_tick && step.1.tick is None
        }),
{
}

} // verus!
