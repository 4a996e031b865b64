//! Connecting to a share's origin: what is refused before any dial, the mount
//! over a data channel and its fallback, and the path a connection settles on.
use crate::auth::{token_of, ShareAuth};
use crate::error::WireError;
use crate::fetch::{unauthorized, unauthorized_text};
use crate::known_seeders::texts;
use crate::origin::{cap_of, origin_cap_ms};
use crate::peers::{selected_label, selected_path_label, NetPath, PathKind};
use crate::text::{opt_text, quoted, quoted_text, text_eq};
use crate::ticket::{has_password, ticket_of, MountTicket, TicketView};
use crate::transport_mode::{mode_of, opt_str, unknown_mode, TransportMode};
use vstd::prelude::*;

verus! {

/// How long a connection may take to select a path, in milliseconds.
pub const PATH_SETTLE_MS: u64 = 3_000;

/// How long a relay dial is tried again, and how far apart, in milliseconds.
pub const RELAY_DIAL_DEADLINE_MS: u64 = 90_000;

pub const RELAY_DIAL_RETRY_MS: u64 = 2_000;

/// How long a connection may take to select the relay, in milliseconds.
pub const RELAY_SELECT_DEADLINE_MS: u64 = 5_000;

/// How far apart two looks at a connection's paths are, in milliseconds.
pub const PATH_POLL_MS: u64 = 50;

/// Why a password and a ticket do not go together: a protected share needs
/// one, and one offered to a share that has none almost always means the wrong
/// ticket, which would open the wrong share and look as if it worked.
pub open spec fn password_mismatch(protected: bool, given: bool) -> Option<Seq<char>> {
    if protected && !given {
        Some(unauthorized_text("this share needs a password"@))
    } else if !protected && given {
        Some("this ticket is not password-protected — check you have the right link"@)
    } else {
        None
    }
}

/// Refuses a password that does not go with a ticket, before it is stretched
/// and before anything is dialled.
///
/// # Errors
/// A protected share without a password, or a password without a protected
/// share.
pub fn check_password(protected: bool, given: bool) -> (out: Result<(), String>)
    ensures
        match password_mismatch(protected, given) {
            None => out is Ok,
            Some(text) => out is Err && out->Err_0@ == text,
        },
{
    if protected && !given {
        Err(unauthorized("this share needs a password"))
    } else if !protected && given {
        Err("this ticket is not password-protected — check you have the right link".to_owned())
    } else {
        Ok(())
    }
}

/// What a client presents: the ticket's secret, or what its password stretches
/// to.
///
/// # Errors
/// As [`check_password`].
pub fn redeem_auth(ticket: &MountTicket, stretched: Option<[u8; 32]>) -> (out: Result<
    ShareAuth,
    String,
>)
    ensures
        match password_mismatch(has_password(ticket.flags), stretched is Some) {
            None => out is Ok && out->Ok_0.spec_token() == token_of(ticket.secret@, stretched)
                && out->Ok_0.spec_protected() == has_password(ticket.flags),
            Some(text) => out is Err && out->Err_0@ == text,
        },
{
    match check_password(ticket.password_protected(), stretched.is_some()) {
        Err(text) => Err(text),
        Ok(_) => Ok(ShareAuth::new(&ticket.secret, stretched)),
    }
}

fn prefixed(context: &str, rest: &str) -> (text: String)
    ensures
        text@ == context@ + rest@,
{
    let mut text = context.to_owned();
    text.push_str(rest);
    text
}

/// The refusal of a ticket.
pub open spec fn bad_ticket(e: WireError) -> Seq<char> {
    "decode ticket: "@ + e.text()
}

/// Whether a ticket needs a password, read from the ticket alone.
///
/// # Errors
/// The ticket is malformed.
pub fn password_required(payload: &[u8]) -> (out: Result<bool, String>)
    ensures
        match ticket_of(payload@) {
            Err(e) => out is Err && out->Err_0@ == bad_ticket(e),
            Ok(ticket) => out == Ok::<bool, String>(has_password(ticket.flags)),
        },
{
    match MountTicket::decode(payload) {
        Err(e) => Err(prefixed("decode ticket: ", e.message())),
        Ok(ticket) => Ok(ticket.password_protected()),
    }
}

/// How the origin is dialled.
#[derive(Debug, Clone, Copy, PartialEq, Eq, Structural)]
pub struct Lanes {
    /// Whether a dial that fails over the data channel may take the relay.
    pub relay_fallback: bool,
    /// Whether the dial is bounded, and raced against the peers of the share.
    pub raced: bool,
    /// The bound, in milliseconds.
    pub cap_ms: u64,
}

/// The lanes of a mode: `webrtc` proves the transport, so nothing else may
/// answer in its place; `dynamic` takes whatever answers.
pub open spec fn lanes_of(mode: TransportMode, cap_ms: u64) -> Lanes {
    Lanes {
        relay_fallback: mode == TransportMode::Dynamic,
        raced: mode == TransportMode::Dynamic,
        cap_ms,
    }
}

/// A connect that may start.
#[derive(Debug)]
pub struct Prepared {
    pub mode: TransportMode,
    pub ticket: MountTicket,
    pub lanes: Lanes,
}

/// Why a connect may not start.
pub open spec fn connect_refusal(
    transport: Option<Seq<char>>,
    payload: Seq<u8>,
    password_given: bool,
) -> Option<Seq<char>> {
    match mode_of(transport) {
        Err(name) => Some(unknown_mode(name)),
        Ok(_) => match ticket_of(payload) {
            Err(e) => Some(bad_ticket(e)),
            Ok(ticket) => password_mismatch(has_password(ticket.flags), password_given),
        },
    }
}

/// Everything that a connect refuses without dialling: the mode, then the
/// ticket, then a password that does not go with it.
///
/// # Errors
/// Any of those.
pub fn prepare_connect(
    transport: Option<&str>,
    payload: &[u8],
    password_given: bool,
    asked_cap_ms: Option<u64>,
) -> (out: Result<Prepared, String>)
    ensures
        match connect_refusal(opt_str(transport), payload@, password_given) {
            Some(text) => out is Err && out->Err_0@ == text,
            None => out is Ok && mode_of(opt_str(transport)) == Ok::<TransportMode, Seq<char>>(
                out->Ok_0.mode,
            ) && ticket_of(payload@) == Ok::<TicketView, WireError>(out->Ok_0.ticket@)
                && out->Ok_0.lanes == lanes_of(
                out->Ok_0.mode,
                cap_of(asked_cap_ms),
            ),
        },
{
    let mode = match TransportMode::parse(transport) {
        Err(text) => return Err(text),
        Ok(mode) => mode,
    };
    let ticket = match MountTicket::decode(payload) {
        Err(e) => return Err(prefixed("decode ticket: ", e.message())),
        Ok(ticket) => ticket,
    };
    match check_password(ticket.password_protected(), password_given) {
        Err(text) => return Err(text),
        Ok(_) => {},
    }
    let dynamic = mode == TransportMode::Dynamic;
    let lanes = Lanes {
        relay_fallback: dynamic,
        raced: dynamic,
        cap_ms: origin_cap_ms(asked_cap_ms),
    };
    Ok(Prepared { mode, ticket, lanes })
}

/// A wrong link is told from a wrong password before any dial: no password is
/// taken for a share without one, and none is missing for a share with one.
pub proof fn law_a_password_goes_with_its_ticket(protected: bool, given: bool)
    ensures
        password_mismatch(protected, given) is None <==> protected == given,
{
}

/// Whether a ticket's address can be dialled at all.
///
/// # Errors
/// It has neither a relay nor an IP address.
pub fn ensure_reachable_addr(relays: usize, ips: usize) -> (out: Result<(), &'static str>)
    ensures
        match out {
            Ok(_) => relays > 0 || ips > 0,
            Err(text) => relays == 0 && ips == 0 && text@ == unreachable_addr(),
        },
{
    if relays == 0 && ips == 0 {
        Err(
            "ticket has no relay or IP address — the producer was not reachable when the ticket was minted",
        )
    } else {
        Ok(())
    }
}

pub open spec fn unreachable_addr() -> Seq<char> {
    "ticket has no relay or IP address — the producer was not reachable when the ticket was minted"@
}

/// Where a mount over a data channel stands.
#[derive(Debug, Clone, PartialEq, Eq)]
pub enum MountStage {
    /// Binding the two endpoints: one with a relay to signal over, and one with
    /// none, so that the mount has no path to lose the data channel to.
    Bind,
    /// Signalling.
    Signal,
    /// Dialling the mount over the data channel.
    Dial,
    /// Waiting for the connection to select a path.
    Settle,
    /// Dialling over the relay, for this reason.
    Fallback(String),
    Over,
}

pub enum MountStageView {
    Bind,
    Signal,
    Dial,
    Settle,
    Fallback(Seq<char>),
    Over,
}

impl View for MountStage {
    type V = MountStageView;

    open spec fn view(&self) -> MountStageView {
        match *self {
            MountStage::Bind => MountStageView::Bind,
            MountStage::Signal => MountStageView::Signal,
            MountStage::Dial => MountStageView::Dial,
            MountStage::Settle => MountStageView::Settle,
            MountStage::Fallback(reason) => MountStageView::Fallback(reason@),
            MountStage::Over => MountStageView::Over,
        }
    }
}

/// What happened to a mount.
#[derive(Debug, Clone, PartialEq, Eq)]
pub enum MountEvent {
    /// The step at hand succeeded.
    Done,
    /// It failed.
    Failed(String),
    /// The path the connection selected, if it did, and all it has.
    Settled(Option<String>, Vec<String>),
}

/// What a mount does next.
#[derive(Debug, Clone, PartialEq, Eq)]
pub enum MountAction {
    Signal,
    Dial,
    Settle,
    /// Close the data channel's endpoint and dial over the relay.
    DialRelay,
    /// Read over the data channel; its path may still have to settle.
    UseChannel(bool),
    /// Read over the relay, for this reason.
    UseRelay(String),
    /// Close whatever was bound.
    Fail(String),
    Nothing,
}

pub enum MountActionView {
    Signal,
    Dial,
    Settle,
    DialRelay,
    UseChannel(bool),
    UseRelay(Seq<char>),
    Fail(Seq<char>),
    Nothing,
}

impl View for MountAction {
    type V = MountActionView;

    open spec fn view(&self) -> MountActionView {
        match *self {
            MountAction::Signal => MountActionView::Signal,
            MountAction::Dial => MountActionView::Dial,
            MountAction::Settle => MountActionView::Settle,
            MountAction::DialRelay => MountActionView::DialRelay,
            MountAction::UseChannel(pending) => MountActionView::UseChannel(pending),
            MountAction::UseRelay(reason) => MountActionView::UseRelay(reason@),
            MountAction::Fail(text) => MountActionView::Fail(text@),
            MountAction::Nothing => MountActionView::Nothing,
        }
    }
}

/// Labels in quotes, in brackets.
pub open spec fn bracketed(labels: Seq<Seq<char>>) -> Seq<char> {
    "["@ + quoted_labels(labels) + "]"@
}

pub open spec fn quoted_labels(labels: Seq<Seq<char>>) -> Seq<char>
    decreases labels.len(),
{
    if labels.len() == 0 {
        Seq::empty()
    } else if labels.len() == 1 {
        quoted(labels[0])
    } else {
        quoted_labels(labels.drop_last()) + ", "@ + quoted(labels.last())
    }
}

fn bracket(labels: &[String]) -> (text: String)
    ensures
        text@ == bracketed(texts(labels@)),
{
    let ghost all = texts(labels@);
    let mut text = String::new();
    let mut i: usize = 0;
    assert(text@ =~= quoted_labels(all.take(0)));
    while i < labels.len()
        invariant
            0 <= i <= labels@.len(),
            all == texts(labels@),
            text@ == quoted_labels(all.take(i as int)),
        decreases labels@.len() - i,
    {
        let ghost upto = all.take(i as int + 1);
        assert(upto.drop_last() =~= all.take(i as int));
        assert(upto.last() == labels@[i as int]@);
        if i > 0 {
            text.push_str(", ");
        }
        text.push_str(quoted_text(labels[i].as_str()).as_str());
        assert(text@ =~= quoted_labels(upto));
        i += 1;
    }
    assert(all.take(i as int) =~= all);
    let mut out = "[".to_owned();
    out.push_str(text.as_str());
    out.push_str("]");
    out
}

/// Why a mount that may only use the data channel did not.
pub open spec fn not_webrtc(selected: Option<Seq<char>>, observed: Seq<Seq<char>>) -> Seq<char> {
    "mount connected but selected "@ + (match selected {
        Some(label) => label,
        None => "no path"@,
    }) + " rather than WebRTC (paths="@ + bracketed(observed)
        + "), and webrtc mode forbids a fallback"@
}

fn not_webrtc_text(selected: &Option<String>, observed: &[String]) -> (text: String)
    ensures
        text@ == not_webrtc(opt_text(*selected), texts(observed@)),
{
    let mut text = "mount connected but selected ".to_owned();
    match selected {
        Some(label) => text.push_str(label.as_str()),
        None => text.push_str("no path"),
    }
    text.push_str(" rather than WebRTC (paths=");
    text.push_str(bracket(observed).as_str());
    text.push_str("), and webrtc mode forbids a fallback");
    assert(text@ =~= not_webrtc(opt_text(*selected), texts(observed@)));
    text
}

/// What an event leads to, where the relay may be fallen back to or not.
pub open spec fn mounted(fallback: bool, stage: MountStageView, event: MountEvent) -> (
    MountStageView,
    MountActionView,
) {
    match (stage, event) {
        (MountStageView::Bind, MountEvent::Done) => (
            MountStageView::Signal,
            MountActionView::Signal,
        ),
        (MountStageView::Bind, MountEvent::Failed(why)) => (
            MountStageView::Over,
            MountActionView::Fail(why@),
        ),
        (MountStageView::Signal, MountEvent::Done) => (MountStageView::Dial, MountActionView::Dial),
        (MountStageView::Signal, MountEvent::Failed(why)) => if fallback {
            (
                MountStageView::Fallback("WebRTC signal/ICE failed: "@ + why@),
                MountActionView::DialRelay,
            )
        } else {
            (MountStageView::Over, MountActionView::Fail(why@))
        },
        (MountStageView::Dial, MountEvent::Done) => if fallback {
            (MountStageView::Over, MountActionView::UseChannel(true))
        } else {
            (MountStageView::Settle, MountActionView::Settle)
        },
        (MountStageView::Dial, MountEvent::Failed(why)) => if fallback {
            (
                MountStageView::Fallback("WebRTC mount dial failed: "@ + why@),
                MountActionView::DialRelay,
            )
        } else {
            (
                MountStageView::Over,
                MountActionView::Fail("dial the mount ALPN over WebRTC: "@ + why@),
            )
        },
        (MountStageView::Settle, MountEvent::Settled(selected, observed)) => if opt_text(selected)
            == Some("webrtc"@) {
            (MountStageView::Over, MountActionView::UseChannel(false))
        } else {
            (
                MountStageView::Over,
                MountActionView::Fail(not_webrtc(opt_text(selected), texts(observed@))),
            )
        },
        (MountStageView::Fallback(reason), MountEvent::Done) => (
            MountStageView::Over,
            MountActionView::UseRelay(reason),
        ),
        (MountStageView::Fallback(_), MountEvent::Failed(why)) => (
            MountStageView::Over,
            MountActionView::Fail("dial the mount ALPN over iroh relay/IP (fallback): "@ + why@),
        ),
        _ => (stage, MountActionView::Nothing),
    }
}

fn is_webrtc(selected: &Option<String>) -> (yes: bool)
    ensures
        yes == (opt_text(*selected) == Some("webrtc"@)),
{
    match selected {
        Some(label) => text_eq(label.as_str(), "webrtc"),
        None => false,
    }
}

/// Takes one event of a mount over a data channel. It starts by binding its two
/// endpoints.
pub fn connect_webrtc(fallback: bool, stage: MountStage, event: MountEvent) -> (out: (
    MountStage,
    MountAction,
))
    ensures
        (out.0@, out.1@) == mounted(fallback, stage@, event),
{
    match (stage, event) {
        (MountStage::Bind, MountEvent::Done) => (MountStage::Signal, MountAction::Signal),
        (MountStage::Bind, MountEvent::Failed(why)) => (MountStage::Over, MountAction::Fail(why)),
        (MountStage::Signal, MountEvent::Done) => (MountStage::Dial, MountAction::Dial),
        (MountStage::Signal, MountEvent::Failed(why)) => {
            if fallback {
                let reason = prefixed("WebRTC signal/ICE failed: ", why.as_str());
                (MountStage::Fallback(reason), MountAction::DialRelay)
            } else {
                (MountStage::Over, MountAction::Fail(why))
            }
        },
        (MountStage::Dial, MountEvent::Done) => {
            if fallback {
                (MountStage::Over, MountAction::UseChannel(true))
            } else {
                (MountStage::Settle, MountAction::Settle)
            }
        },
        (MountStage::Dial, MountEvent::Failed(why)) => {
            if fallback {
                let reason = prefixed("WebRTC mount dial failed: ", why.as_str());
                (MountStage::Fallback(reason), MountAction::DialRelay)
            } else {
                (
                    MountStage::Over,
                    MountAction::Fail(prefixed("dial the mount ALPN over WebRTC: ", why.as_str())),
                )
            }
        },
        (MountStage::Settle, MountEvent::Settled(selected, observed)) => {
            if is_webrtc(&selected) {
                (MountStage::Over, MountAction::UseChannel(false))
            } else {
                (
                    MountStage::Over,
                    MountAction::Fail(not_webrtc_text(&selected, observed.as_slice())),
                )
            }
        },
        (MountStage::Fallback(reason), MountEvent::Done) => (
            MountStage::Over,
            MountAction::UseRelay(reason),
        ),
        (MountStage::Fallback(_), MountEvent::Failed(why)) => (
            MountStage::Over,
            MountAction::Fail(
                prefixed("dial the mount ALPN over iroh relay/IP (fallback): ", why.as_str()),
            ),
        ),
        (stage, _) => (stage, MountAction::Nothing),
    }
}

/// The pinned mode never reads over anything but the data channel: without a
/// fallback no step leads to the relay, and the channel is used only once it is
/// the selected path.
pub proof fn law_webrtc_mode_is_webrtc_only(stage: MountStageView, event: MountEvent)
    requires
        !(stage is Fallback),
    ensures
        !(mounted(false, stage, event).0 is Fallback),
        !(mounted(false, stage, event).1 is DialRelay),
        !(mounted(false, stage, event).1 is UseRelay),
        mounted(false, stage, event).1 is UseChannel ==> stage is Settle && (event matches
            MountEvent::Settled(selected, _) && opt_text(selected) == Some("webrtc"@)),
{
}

/// A connect that may fall back fails only after the relay failed too, once its
/// endpoints are bound.
pub proof fn law_the_relay_is_tried_before_giving_up(stage: MountStageView, event: MountEvent)
    requires
        !(stage is Bind),
        !(stage is Settle),
    ensures
        mounted(true, stage, event).1 is Fail ==> stage is Fallback && event is Failed,
        !(mounted(true, stage, event).0 is Settle),
{
}

/// What settling leaves of a provisional path.
#[derive(Debug, Clone, PartialEq, Eq)]
pub struct Settlement {
    pub data_path: String,
    /// What to report where the path is not the data channel.
    pub reason: Option<String>,
}

pub open spec fn odd_settlement(selected: Option<Seq<char>>) -> Seq<char> {
    "the mount reported "@ + (match selected {
        Some(label) => label,
        None => "no path before the settle deadline"@,
    }) + " rather than WebRTC on a relay-free endpoint"@
}

/// Firms up the path a mount was given provisionally. On an endpoint without a
/// relay there is nothing to settle on but the data channel, so anything else
/// is reported.
#[must_use]
pub fn settle_path(provisional: String, selected: Option<String>) -> (out: Settlement)
    ensures
        out.data_path@ == (match opt_text(selected) {
            Some(label) => label,
            None => provisional@,
        }),
        opt_text(out.reason) == (if opt_text(selected) == Some("webrtc"@) {
            None
        } else {
            Some(odd_settlement(opt_text(selected)))
        }),
{
    let reason = if is_webrtc(&selected) {
        None
    } else {
        let mut text = "the mount reported ".to_owned();
        match &selected {
            Some(label) => text.push_str(label.as_str()),
            None => text.push_str("no path before the settle deadline"),
        }
        text.push_str(" rather than WebRTC on a relay-free endpoint");
        assert(text@ =~= odd_settlement(opt_text(selected)));
        Some(text)
    };
    let data_path = match selected {
        Some(label) => label,
        None => provisional,
    };
    Settlement { data_path, reason }
}

/// One look at whether a connection has selected a path.
#[derive(Debug, Clone, PartialEq, Eq)]
pub enum PathLook {
    Selected(String),
    /// Look again after a moment.
    Again,
    /// Nothing was selected in time.
    Unsettled,
}

/// What a look at a connection's paths comes to.
pub fn settled_path_label(paths: &[NetPath], elapsed_ms: u64) -> (look: PathLook)
    ensures
        match look {
            PathLook::Selected(label) => selected_label(paths@) == Some(label@),
            PathLook::Again => selected_label(paths@) is None && elapsed_ms < PATH_SETTLE_MS,
            PathLook::Unsettled => selected_label(paths@) is None && elapsed_ms >= PATH_SETTLE_MS,
        },
{
    match selected_path_label(paths) {
        Some(label) => PathLook::Selected(label),
        None => {
            if elapsed_ms >= PATH_SETTLE_MS {
                PathLook::Unsettled
            } else {
                PathLook::Again
            }
        },
    }
}

/// A dial over the relay that failed: the pause before the next, or why there is
/// none.
pub fn dial_with_retry(elapsed_ms: u64, error: &str) -> (out: Result<u64, String>)
    ensures
        match out {
            Ok(pause) => elapsed_ms < RELAY_DIAL_DEADLINE_MS && pause == RELAY_DIAL_RETRY_MS,
            Err(text) => elapsed_ms >= RELAY_DIAL_DEADLINE_MS && text@
                == "could not reach bench producer over iroh relay: "@ + error@,
        },
{
    if elapsed_ms < RELAY_DIAL_DEADLINE_MS {
        Ok(RELAY_DIAL_RETRY_MS)
    } else {
        Err(prefixed("could not reach bench producer over iroh relay: ", error))
    }
}

/// How a path is named in a summary, with a star where it is selected.
pub open spec fn path_mark(path: NetPath) -> Seq<char> {
    (if path.selected {
        "*"@
    } else {
        Seq::empty()
    }) + (match path.kind {
        PathKind::Relay => "relay"@,
        PathKind::Ip => "ip"@,
        _ => "other"@,
    })
}

pub open spec fn path_marks(paths: Seq<NetPath>) -> Seq<Seq<char>> {
    Seq::new(paths.len(), |i: int| path_mark(paths[i]))
}

/// Why a benchmark of the relay did not measure the relay.
pub open spec fn not_relay(paths: Seq<NetPath>) -> Seq<char> {
    "relay bench selected a non-relay path (paths="@ + bracketed(path_marks(paths))
        + "); producer and consumer both need clear_ip_transports (restart producer with `bench --transport relay`)"@
}

/// The first selected path, if one is.
pub open spec fn selected_kind(paths: Seq<NetPath>) -> Option<PathKind>
    decreases paths.len(),
{
    if paths.len() == 0 {
        None
    } else if paths[0].selected {
        Some(paths[0].kind)
    } else {
        selected_kind(paths.skip(1))
    }
}

fn mark(path: &NetPath) -> (text: String)
    ensures
        text@ == path_mark(*path),
{
    let mut text = String::new();
    if path.selected {
        text.push_str("*");
    }
    match path.kind {
        PathKind::Relay => text.push_str("relay"),
        PathKind::Ip => text.push_str("ip"),
        _ => text.push_str("other"),
    }
    assert(text@ =~= path_mark(*path));
    text
}

fn relay_selected(paths: &[NetPath]) -> (yes: bool)
    ensures
        yes == (selected_kind(paths@) matches Some(PathKind::Relay)),
{
    let mut i: usize = 0;
    assert(paths@.skip(0) =~= paths@);
    while i < paths.len()
        invariant
            0 <= i <= paths@.len(),
            selected_kind(paths@) == selected_kind(paths@.skip(i as int)),
        decreases paths@.len() - i,
    {
        assert(paths@.skip(i as int).skip(1) =~= paths@.skip(i as int + 1));
        if paths[i].selected {
            return matches!(paths[i].kind, PathKind::Relay);
        }
        i += 1;
    }
    false
}

/// Requires that a connection selects the relay: whether it has, or whether to
/// look again.
///
/// # Errors
/// It has not in time.
pub fn ensure_relay_selected(paths: &[NetPath], elapsed_ms: u64) -> (out: Result<bool, String>)
    ensures
        match out {
            Ok(true) => selected_kind(paths@) == Some(PathKind::Relay),
            Ok(false) => selected_kind(paths@) != Some(PathKind::Relay) && elapsed_ms
                < RELAY_SELECT_DEADLINE_MS,
            Err(text) => selected_kind(paths@) != Some(PathKind::Relay) && elapsed_ms
                >= RELAY_SELECT_DEADLINE_MS && text@ == not_relay(paths@),
        },
{
    if relay_selected(paths) {
        return Ok(true);
    }
    if elapsed_ms < RELAY_SELECT_DEADLINE_MS {
        return Ok(false);
    }
    let mut marks: Vec<String> = Vec::new();
    let mut i: usize = 0;
    while i < paths.len()
        invariant
            0 <= i <= paths@.len(),
            marks@.len() == i,
            forall|k: int| 0 <= k < i ==> (#[trigger] marks@[k])@ == path_mark(paths@[k]),
        decreases paths@.len() - i,
    {
        marks.push(mark(&paths[i]));
        i += 1;
    }
    assert(texts(marks@) =~= path_marks(paths@));
    let mut text = "relay bench selected a non-relay path (paths=".to_owned();
    text.push_str(bracket(marks.as_slice()).as_str());
    text.push_str(
        "); producer and consumer both need clear_ip_transports (restart producer with `bench --transport relay`)",
    );
    assert(text@ =~= not_relay(paths@));
    Err(text)
}

/// A mount goes forward as its steps succeed: it signals, then dials over the data
/// channel, and reads over it, at once where it may fall back and otherwise once
/// the channel is the path that was selected.
pub proof fn law_a_mount_goes_forward(
    fallback: bool,
    reason: Seq<char>,
    selected: Option<String>,
    observed: Vec<String>,
)
    ensures
        mounted(fallback, MountStageView::Bind, MountEvent::Done) == (
            MountStageView::Signal,
            MountActionView::Signal,
        ),
        mounted(fallback, MountStageView::Signal, MountEvent::Done) == (
            MountStageView::Dial,
            MountActionView::Dial,
        ),
        mounted(true, MountStageView::Dial, MountEvent::Done) == (
            MountStageView::Over,
            MountActionView::UseChannel(true),
        ),
        mounted(false, MountStageView::Dial, MountEvent::Done) == (
            MountStageView::Settle,
            MountActionView::Settle,
        ),
        opt_text(selected) == Some("webrtc"@) ==> mounted(
            fallback,
            MountStageView::Settle,
            MountEvent::Settled(selected, observed),
        ) == (MountStageView::Over, MountActionView::UseChannel(false)),
        opt_text(selected) != Some("webrtc"@) ==> {
            let step = mounted(
                fallback,
                MountStageView::Settle,
                MountEvent::Settled(selected, observed),
            );
            step.0 is Over && step.1 is Fail
        },
        mounted(fallback, MountStageView::Fallback(reason), MountEvent::Done) == (
            MountStageView::Over,
            MountActionView::UseRelay(reason),
        ),
{
}

/// A step of a mount that fails takes the relay where it may, and says why; it
/// ends the mount where it may not, where nothing was bound, or where the relay
/// failed too.
pub proof fn law_a_failed_mount_takes_the_relay_or_ends(why: String, reason: Seq<char>)
    ensures
        mounted(true, MountStageView::Signal, MountEvent::Failed(why)) == (
            MountStageView::Fallback("WebRTC signal/ICE failed: "@ + why@),
            MountActionView::DialRelay,
        ),
        mounted(true, MountStageView::Dial, MountEvent::Failed(why)) == (
            MountStageView::Fallback("WebRTC mount dial failed: "@ + why@),
            MountActionView::DialRelay,
        ),
        forall|fallback: bool, stage: MountStageView|
            (stage is Bind || stage is Fallback || (!fallback && (stage is Signal || stage
                is Dial))) ==> {
                let step = #[trigger] mounted(fallback, stage, MountEvent::Failed(why));
                &&& step.0 is Over
                &&& step.1 matches MountActionView::Fail(text) && text.len() >= why@.len()
                    && text.skip(text.len() - why@.len()) == why@
            },
        forall|fallback: bool, event: MountEvent|
            #[trigger] mounted(fallback, MountStageView::Over, event) == (
                MountStageView::Over,
                MountActionView::Nothing,
            ),
{
    let a = "dial the mount ALPN over WebRTC: "@ + why@;
    let b = "dial the mount ALPN over iroh relay/IP (fallback): "@ + why@;
    assert(a.skip(a.len() - why@.len()) =~= why@);
    assert(b.skip(b.len() - why@.len()) =~= why@);
    assert(why@.skip(0) =~= why@);
}

/// Only the dynamic mode races the origin against its peers and may fall back to
/// the relay; every mode keeps the cap it was given.
pub proof fn law_only_the_dynamic_mode_takes_whatever_answers(mode: TransportMode, cap_ms: u64)
    ensures
        lanes_of(mode, cap_ms).relay_fallback <==> mode == TransportMode::Dynamic,
        lanes_of(mode, cap_ms).raced <==> mode == TransportMode::Dynamic,
        lanes_of(mode, cap_ms).cap_ms == cap_ms,
{
}

/// A connect is refused before any dial exactly where its mode is unknown, its
/// ticket does not decode, or its password does not go with the ticket.
pub proof fn law_a_connect_is_refused_for_a_reason(
    transport: Option<Seq<char>>,
    payload: Seq<u8>,
    password_given: bool,
)
    ensures
        connect_refusal(transport, payload, password_given) is None <==> {
            &&& mode_of(transport) is Ok
            &&& ticket_of(payload) matches Ok(ticket) && has_password(ticket.flags)
                == password_given
        },
{
}

/// The path that counts is the first one that is selected.
pub proof fn law_the_first_selected_path_counts(paths: Seq<NetPath>, i: int)
    ensures
        0 <= i < paths.len() && paths[i].selected && (forall|j: int|
            0 <= j < i ==> !(#[trigger] paths[j]).selected) ==> selected_kind(paths) == Some(
            paths[i].kind,
        ),
        (forall|j: int| 0 <= j < paths.len() ==> !(#[trigger] paths[j]).selected)
            ==> selected_kind(paths) is None,
    decreases paths.len(),
{
    if paths.len() > 0 {
        let rest = paths.skip(1);
        if !paths[0].selected {
            law_the_first_selected_path_counts(rest, i - 1);
            if forall|j: int| 0 <= j < paths.len() ==> !(#[trigger] paths[j]).selected {
                assert forall|j: int| 0 <= j < rest.len() implies !(#[trigger] rest[j]).selected by {
                    assert(rest[j] == paths[j + 1]);
                }
            }
            if 0 <= i < paths.len() && paths[i].selected && (forall|j: int|
                0 <= j < i ==> !(#[trigger] paths[j]).selected) {
                assert(rest[i - 1] == paths[i]);
                assert forall|j: int| 0 <= j < i - 1 implies !(#[trigger] rest[j]).selected by {
                    assert(rest[j] == paths[j + 1]);
                }
            }
        } else if 0 < i < paths.len() {
            assert(paths[0].selected);
        }
    }
}

/// A connect is refused for its mode first, then for its ticket, then for its
/// password, and says which. A missing password is the failure a page asks again on.
pub proof fn law_a_refused_connect_says_why(
    transport: Option<Seq<char>>,
    payload: Seq<u8>,
    password_given: bool,
)
    ensures
        mode_of(transport) matches Err(name) ==> connect_refusal(transport, payload, password_given)
            == Some("unknown transport mode "@ + quoted(name) + "; expected webrtc or dynamic"@),
        mode_of(transport) is Ok ==> match ticket_of(payload) {
            Err(e) => connect_refusal(transport, payload, password_given) == Some(
                "decode ticket: "@ + e.text(),
            ),
            Ok(ticket) => {
                &&& has_password(ticket.flags) && !password_given ==> connect_refusal(
                    transport,
                    payload,
                    password_given,
                ) == Some("unauthorized:"@ + " "@ + "this share needs a password"@)
                &&& !has_password(ticket.flags) && password_given ==> connect_refusal(
                    transport,
                    payload,
                    password_given,
                ) == Some(
                    "this ticket is not password-protected — check you have the right link"@,
                )
            },
        },
        forall|flags: u8| #[trigger] has_password(flags) <==> flags % 2 == 1,
{
}

/// Labels are shown in brackets, each in quotes, with commas between.
pub proof fn law_labels_are_shown_in_order(labels: Seq<Seq<char>>)
    ensures
        labels.len() == 0 ==> bracketed(labels) == "["@ + "]"@,
        labels.len() > 0 ==> bracketed(labels) == "["@ + (quoted(labels[0])
            + labels.drop_first().map_values(
            |label: Seq<char>| ", "@ + quoted(label),
        ).flatten()) + "]"@,
{
    if labels.len() > 0 {
        lemma_quoted_labels(labels);
    } else {
        assert(bracketed(labels) =~= "["@ + "]"@);
    }
}

proof fn lemma_quoted_labels(labels: Seq<Seq<char>>)
    requires
        labels.len() > 0,
    ensures
        quoted_labels(labels) == quoted(labels[0]) + labels.drop_first().map_values(
            |label: Seq<char>| ", "@ + quoted(label),
        ).flatten(),
    decreases labels.len(),
{
    let led = |label: Seq<char>| ", "@ + quoted(label);
    if labels.len() == 1 {
        assert(labels.drop_first().map_values(led) =~= Seq::empty());
        assert(quoted_labels(labels) =~= quoted(labels[0]) + Seq::<Seq<char>>::empty().flatten());
    } else {
        let front = labels.drop_last();
        lemma_quoted_labels(front);
        let short = front.drop_first().map_values(led);
        assert(labels.drop_first().map_values(led) =~= short.push(led(labels.last())));
        short.lemma_flatten_push(led(labels.last()));
        assert(quoted_labels(labels) =~= quoted(labels[0]) + (short.flatten() + led(
            labels.last(),
        )));
    }
}

/// A mount that settled on anything but the data channel says what it settled on; a
/// bench that is not over the relay shows every path, the selected ones marked.
pub proof fn law_a_wrong_path_is_named(
    label: Seq<char>,
    observed: Seq<Seq<char>>,
    paths: Seq<NetPath>,
    i: int,
    text: String,
)
    ensures
        not_webrtc(Some(label), observed) == "mount connected but selected "@ + label
            + " rather than WebRTC (paths="@ + bracketed(observed)
            + "), and webrtc mode forbids a fallback"@,
        not_webrtc(None, observed) == "mount connected but selected "@ + "no path"@
            + " rather than WebRTC (paths="@ + bracketed(observed)
            + "), and webrtc mode forbids a fallback"@,
        odd_settlement(Some(label)) == "the mount reported "@ + label
            + " rather than WebRTC on a relay-free endpoint"@,
        odd_settlement(None) == "the mount reported "@ + "no path before the settle deadline"@
            + " rather than WebRTC on a relay-free endpoint"@,
        path_marks(paths).len() == paths.len(),
        0 <= i < paths.len() ==> path_marks(paths)[i] == path_mark(paths[i]),
        path_mark(NetPath { kind: PathKind::Relay, selected: false }) == "relay"@,
        path_mark(NetPath { kind: PathKind::Ip, selected: false }) == "ip"@,
        path_mark(NetPath { kind: PathKind::DataChannel, selected: false }) == "other"@,
        path_mark(NetPath { kind: PathKind::Other(text), selected: false }) == "other"@,
        forall|kind: PathKind| #[trigger]
            path_mark(NetPath { kind, selected: true }) == "*"@ + path_mark(
                NetPath { kind, selected: false },
            ),
{
    assert(path_mark(NetPath { kind: PathKind::Relay, selected: false }) =~= "relay"@);
    assert(path_mark(NetPath { kind: PathKind::Ip, selected: false }) =~= "ip"@);
    assert(path_mark(NetPath { kind: PathKind::DataChannel, selected: false }) =~= "other"@);
    assert(path_mark(NetPath { kind: PathKind::Other(text), selected: false }) =~= "other"@);
    assert forall|kind: PathKind| #[trigger]
        path_mark(NetPath { kind, selected: true }) == "*"@ + path_mark(
            NetPath { kind, selected: false },
        ) by {
        assert(path_mark(NetPath { kind, selected: true }) =~= "*"@ + path_mark(
            NetPath { kind, selected: false },
        ));
    }
}

} // verus!
