//! Exchanging one envelope each way, so that two peers come to hold a data
//! channel: the side that offers, and the side that answers.
use crate::text::{bytes_eq, hex, hex_text};
use vstd::prelude::*;

verus! {

/// A step of an exchange that can fail, and how its failure is introduced.
#[derive(Debug, Clone, Copy, PartialEq, Eq, Structural)]
pub enum SignalStep {
    Dial,
    Open,
    BuildOffer,
    EncodeOffer,
    SendOffer,
    Finish,
    ReadAnswer,
    ParseAnswer,
    Complete,
    Accept,
    ReadOffer,
    ParseOffer,
    EncodeRefusal,
    SendRefusal,
    BuildAnswer,
    EncodeAnswer,
    SendAnswer,
    FinishAnswer,
    Attach,
}

impl SignalStep {
    pub open spec fn text(self) -> Seq<char> {
        match self {
            SignalStep::Dial => "dial the signal ALPN"@,
            SignalStep::Open => "open signal stream"@,
            SignalStep::BuildOffer => "build offer"@,
            SignalStep::EncodeOffer => "encode offer"@,
            SignalStep::SendOffer => "send offer"@,
            SignalStep::Finish => "finish"@,
            SignalStep::ReadAnswer => {
                "read answer (producer never answered — is it still sharing?)"@
            },
            SignalStep::ParseAnswer => "parse answer"@,
            SignalStep::Complete => "complete WebRTC offer"@,
            SignalStep::Accept => "accept signal stream"@,
            SignalStep::ReadOffer => "read signal offer"@,
            SignalStep::ParseOffer => "parse signal offer"@,
            SignalStep::EncodeRefusal => "encode refusal"@,
            SignalStep::SendRefusal => "send refusal"@,
            SignalStep::BuildAnswer => "build answer"@,
            SignalStep::EncodeAnswer => "encode answer"@,
            SignalStep::SendAnswer => "send answer"@,
            SignalStep::FinishAnswer => "finish signal"@,
            SignalStep::Attach => "complete WebRTC answer"@,
        }
    }

    /// How a failure of the step is introduced.
    pub fn name(self) -> (text: &'static str)
        ensures
            text@ == self.text(),
    {
        match self {
            SignalStep::Dial => "dial the signal ALPN",
            SignalStep::Open => "open signal stream",
            SignalStep::BuildOffer => "build offer",
            SignalStep::EncodeOffer => "encode offer",
            SignalStep::SendOffer => "send offer",
            SignalStep::Finish => "finish",
            SignalStep::ReadAnswer => {
                "read answer (producer never answered — is it still sharing?)"
            },
            SignalStep::ParseAnswer => "parse answer",
            SignalStep::Complete => "complete WebRTC offer",
            SignalStep::Accept => "accept signal stream",
            SignalStep::ReadOffer => "read signal offer",
            SignalStep::ParseOffer => "parse signal offer",
            SignalStep::EncodeRefusal => "encode refusal",
            SignalStep::SendRefusal => "send refusal",
            SignalStep::BuildAnswer => "build answer",
            SignalStep::EncodeAnswer => "encode answer",
            SignalStep::SendAnswer => "send answer",
            SignalStep::FinishAnswer => "finish signal",
            SignalStep::Attach => "complete WebRTC answer",
        }
    }
}

/// A failure of a step.
pub open spec fn step_failure(step: SignalStep, why: Seq<char>) -> Seq<char> {
    step.text() + ": "@ + why
}

fn failure_of(step: SignalStep, why: &str) -> (text: String)
    ensures
        text@ == step_failure(step, why@),
{
    let mut text = step.name().to_owned();
    text.push_str(": ");
    text.push_str(why);
    assert(text@ =~= step_failure(step, why@));
    text
}

/// Where the side that offers stands.
#[derive(Debug, Clone, Copy, PartialEq, Eq, Structural)]
pub enum OfferStage {
    /// Looking for a session that stands already.
    Look,
    /// Sending an offer and waiting for the answer.
    Exchange,
    /// Completing the offer with the answer.
    Complete,
    Over,
}

/// What the side that offers sees.
#[derive(Debug, Clone, PartialEq, Eq)]
pub enum OfferEvent {
    /// Whether a session with the peer stands already.
    Looked(bool),
    /// A step failed.
    Failed(SignalStep, String),
    /// The peer refused, for this reason; whether a session stands by now.
    Refused(String, bool),
    /// The peer answered.
    Answered,
    /// The session stands, with this peer.
    Attached([u8; 32]),
}

/// What the side that offers does next.
#[derive(Debug, Clone, PartialEq, Eq)]
pub enum OfferAction {
    /// Use the session that stands.
    Reuse,
    /// Dial and build an offer together, send it, and read the answer.
    Offer,
    Complete,
    /// Close the signalling connection and use the new session.
    Attached,
    Fail(String),
    Nothing,
}

pub enum OfferActionView {
    Reuse,
    Offer,
    Complete,
    Attached,
    Fail(Seq<char>),
    Nothing,
}

impl View for OfferAction {
    type V = OfferActionView;

    open spec fn view(&self) -> OfferActionView {
        match *self {
            OfferAction::Reuse => OfferActionView::Reuse,
            OfferAction::Offer => OfferActionView::Offer,
            OfferAction::Complete => OfferActionView::Complete,
            OfferAction::Attached => OfferActionView::Attached,
            OfferAction::Fail(text) => OfferActionView::Fail(text@),
            OfferAction::Nothing => OfferActionView::Nothing,
        }
    }
}

/// Why an answer under another name is not used: a session keyed by it would
/// swallow everything sent to the peer the ticket names.
pub open spec fn wrong_peer(remote: Seq<u8>, producer: Seq<u8>) -> Seq<char> {
    "answer endpoint id "@ + hex(remote) + " does not match ticket producer "@ + hex(producer)
}

/// What an event leads to.
pub open spec fn offered(producer: Seq<u8>, stage: OfferStage, event: OfferEvent) -> (
    OfferStage,
    OfferActionView,
) {
    match (stage, event) {
        (OfferStage::Over, _) => (stage, OfferActionView::Nothing),
        (OfferStage::Look, OfferEvent::Looked(true)) => (OfferStage::Over, OfferActionView::Reuse),
        (OfferStage::Look, OfferEvent::Looked(false)) => (
            OfferStage::Exchange,
            OfferActionView::Offer,
        ),
        (OfferStage::Exchange, OfferEvent::Refused(reason, has_session)) => (
            OfferStage::Over,
            if has_session {
                OfferActionView::Reuse
            } else {
                OfferActionView::Fail("producer refused WebRTC signalling: "@ + reason@)
            },
        ),
        (OfferStage::Exchange, OfferEvent::Answered) => (
            OfferStage::Complete,
            OfferActionView::Complete,
        ),
        (OfferStage::Complete, OfferEvent::Attached(remote)) => (
            OfferStage::Over,
            if remote@ == producer {
                OfferActionView::Attached
            } else {
                OfferActionView::Fail(wrong_peer(remote@, producer))
            },
        ),
        (_, OfferEvent::Failed(step, why)) => (
            OfferStage::Over,
            OfferActionView::Fail(step_failure(step, why@)),
        ),
        _ => (stage, OfferActionView::Nothing),
    }
}

/// Takes one event of the side that offers. It starts by looking for a session:
/// a second negotiation with a peer that is reached already would only be
/// refused in the end.
pub fn negotiate(producer: &[u8; 32], stage: OfferStage, event: OfferEvent) -> (out: (
    OfferStage,
    OfferAction,
))
    ensures
        (out.0, out.1@) == offered(producer@, stage, event),
{
    match (stage, event) {
        (OfferStage::Over, _) => (stage, OfferAction::Nothing),
        (OfferStage::Look, OfferEvent::Looked(has_session)) => {
            if has_session {
                (OfferStage::Over, OfferAction::Reuse)
            } else {
                (OfferStage::Exchange, OfferAction::Offer)
            }
        },
        (OfferStage::Exchange, OfferEvent::Refused(reason, has_session)) => {
            if has_session {
                (OfferStage::Over, OfferAction::Reuse)
            } else {
                let mut text = "producer refused WebRTC signalling: ".to_owned();
                text.push_str(reason.as_str());
                (OfferStage::Over, OfferAction::Fail(text))
            }
        },
        (OfferStage::Exchange, OfferEvent::Answered) => (
            OfferStage::Complete,
            OfferAction::Complete,
        ),
        (OfferStage::Complete, OfferEvent::Attached(remote)) => {
            if bytes_eq(remote.as_slice(), producer.as_slice()) {
                (OfferStage::Over, OfferAction::Attached)
            } else {
                let mut text = "answer endpoint id ".to_owned();
                text.push_str(hex_text(remote.as_slice()).as_str());
                text.push_str(" does not match ticket producer ");
                text.push_str(hex_text(producer.as_slice()).as_str());
                assert(text@ =~= wrong_peer(remote@, producer@));
                (OfferStage::Over, OfferAction::Fail(text))
            }
        },
        (_, OfferEvent::Failed(step, why)) => (
            OfferStage::Over,
            OfferAction::Fail(failure_of(step, why.as_str())),
        ),
        (stage, _) => (stage, OfferAction::Nothing),
    }
}

/// A new session is used only where it is with the peer the ticket names.
pub proof fn law_only_the_named_peer_is_attached(
    producer: Seq<u8>,
    stage: OfferStage,
    event: OfferEvent,
)
    ensures
        offered(producer, stage, event).1 is Attached ==> (event matches OfferEvent::Attached(remote)
            && remote@ == producer),
{
}

/// Where the side that answers stands.
#[derive(Debug, Clone, Copy, PartialEq, Eq, Structural)]
pub enum AnswerStage {
    /// Reading the offer.
    Read,
    /// Sending a refusal.
    Refuse,
    /// Building the answer and sending it.
    Answer,
    /// Completing the negotiation.
    Complete,
    Over,
}

/// What the side that answers sees.
#[derive(Debug, Clone, PartialEq, Eq)]
pub enum AnswerEvent {
    /// An offer came; whether a session with the peer stands already.
    Offer(bool),
    /// The step at hand succeeded.
    Done,
    /// A step failed.
    Failed(SignalStep, String),
}

/// What the side that answers does next.
#[derive(Debug, Clone, PartialEq, Eq)]
pub enum AnswerAction {
    /// Send a refusal with [`SESSION_EXISTS`], and wait until it was read.
    Refuse,
    /// Build the answer to the offer and send it.
    Answer,
    /// Complete the negotiation, for the peer the connection proved.
    Complete,
    Finish,
    Fail(String),
    Nothing,
}

pub enum AnswerActionView {
    Refuse,
    Answer,
    Complete,
    Finish,
    Fail(Seq<char>),
    Nothing,
}

impl View for AnswerAction {
    type V = AnswerActionView;

    open spec fn view(&self) -> AnswerActionView {
        match *self {
            AnswerAction::Refuse => AnswerActionView::Refuse,
            AnswerAction::Answer => AnswerActionView::Answer,
            AnswerAction::Complete => AnswerActionView::Complete,
            AnswerAction::Finish => AnswerActionView::Finish,
            AnswerAction::Fail(text) => AnswerActionView::Fail(text@),
            AnswerAction::Nothing => AnswerActionView::Nothing,
        }
    }
}

/// Why an offer is refused without being looked at.
pub const SESSION_EXISTS: &'static str = "a WebRTC session with you already exists; dial the custom addr";

/// What an event leads to. The answer is on the wire before the negotiation is
/// completed: the other side cannot go on without it.
pub open spec fn answered(stage: AnswerStage, event: AnswerEvent) -> (
    AnswerStage,
    AnswerActionView,
) {
    match (stage, event) {
        (AnswerStage::Over, _) => (stage, AnswerActionView::Nothing),
        (AnswerStage::Read, AnswerEvent::Offer(true)) => (
            AnswerStage::Refuse,
            AnswerActionView::Refuse,
        ),
        (AnswerStage::Read, AnswerEvent::Offer(false)) => (
            AnswerStage::Answer,
            AnswerActionView::Answer,
        ),
        (AnswerStage::Refuse, AnswerEvent::Done) => (AnswerStage::Over, AnswerActionView::Finish),
        (AnswerStage::Answer, AnswerEvent::Done) => (
            AnswerStage::Complete,
            AnswerActionView::Complete,
        ),
        (AnswerStage::Complete, AnswerEvent::Done) => (AnswerStage::Over, AnswerActionView::Finish),
        (_, AnswerEvent::Failed(step, why)) => (
            AnswerStage::Over,
            AnswerActionView::Fail(step_failure(step, why@)),
        ),
        _ => (stage, AnswerActionView::Nothing),
    }
}

/// Takes one event of the side that answers. It starts by reading an offer.
pub fn serve_signal(stage: AnswerStage, event: AnswerEvent) -> (out: (AnswerStage, AnswerAction))
    ensures
        (out.0, out.1@) == answered(stage, event),
{
    match (stage, event) {
        (AnswerStage::Over, _) => (stage, AnswerAction::Nothing),
        (AnswerStage::Read, AnswerEvent::Offer(has_session)) => {
            if has_session {
                (AnswerStage::Refuse, AnswerAction::Refuse)
            } else {
                (AnswerStage::Answer, AnswerAction::Answer)
            }
        },
        (AnswerStage::Refuse, AnswerEvent::Done) => (AnswerStage::Over, AnswerAction::Finish),
        (AnswerStage::Answer, AnswerEvent::Done) => (AnswerStage::Complete, AnswerAction::Complete),
        (AnswerStage::Complete, AnswerEvent::Done) => (AnswerStage::Over, AnswerAction::Finish),
        (_, AnswerEvent::Failed(step, why)) => (
            AnswerStage::Over,
            AnswerAction::Fail(failure_of(step, why.as_str())),
        ),
        (stage, _) => (stage, AnswerAction::Nothing),
    }
}

/// A negotiation is completed only after its answer was sent, and an offer from
/// a peer that is reached already is refused.
pub proof fn law_the_answer_is_sent_first(stage: AnswerStage, event: AnswerEvent)
    ensures
        answered(stage, event).1 is Complete ==> stage is Answer && event is Done,
        answered(AnswerStage::Read, AnswerEvent::Offer(true)).1 is Refuse,
{
}

/// The side that offers looks for a session first, offers where there is none, and
/// completes with the answer. A peer that answers under the name the ticket gives
/// is attached. A session that stands is used, also where it came up while the
/// peer refused.
pub proof fn law_an_offer_leads_to_a_session(
    producer: Seq<u8>,
    remote: [u8; 32],
    reason: String,
    step: SignalStep,
    why: String,
)
    ensures
        offered(producer, OfferStage::Look, OfferEvent::Looked(true)) == (
            OfferStage::Over,
            OfferActionView::Reuse,
        ),
        offered(producer, OfferStage::Look, OfferEvent::Looked(false)) == (
            OfferStage::Exchange,
            OfferActionView::Offer,
        ),
        offered(producer, OfferStage::Exchange, OfferEvent::Answered) == (
            OfferStage::Complete,
            OfferActionView::Complete,
        ),
        offered(producer, OfferStage::Exchange, OfferEvent::Refused(reason, true)) == (
            OfferStage::Over,
            OfferActionView::Reuse,
        ),
        offered(producer, OfferStage::Exchange, OfferEvent::Refused(reason, false)) == (
            OfferStage::Over,
            OfferActionView::Fail("producer refused WebRTC signalling: "@ + reason@),
        ),
        remote@ == producer ==> offered(
            producer,
            OfferStage::Complete,
            OfferEvent::Attached(remote),
        ) == (OfferStage::Over, OfferActionView::Attached),
        remote@ != producer ==> offered(
            producer,
            OfferStage::Complete,
            OfferEvent::Attached(remote),
        ) == (
            OfferStage::Over,
            OfferActionView::Fail(
                "answer endpoint id "@ + hex(remote@) + " does not match ticket producer "@ + hex(
                    producer,
                ),
            ),
        ),
        forall|stage: OfferStage|
            !(stage is Over) ==> #[trigger] offered(producer, stage, OfferEvent::Failed(step, why))
                == (OfferStage::Over, OfferActionView::Fail(step.text() + ": "@ + why@)),
        forall|event: OfferEvent| #[trigger]
            offered(producer, OfferStage::Over, event) == (
                OfferStage::Over,
                OfferActionView::Nothing,
            ),
{
}

/// The side that answers sends its answer and then completes, and ends with that.
/// To a peer that has a session it sends a refusal, and ends with that. A step
/// that fails ends either.
pub proof fn law_an_answer_leads_to_a_session(step: SignalStep, why: String)
    ensures
        answered(AnswerStage::Read, AnswerEvent::Offer(false)) == (
            AnswerStage::Answer,
            AnswerActionView::Answer,
        ),
        answered(AnswerStage::Answer, AnswerEvent::Done) == (
            AnswerStage::Complete,
            AnswerActionView::Complete,
        ),
        answered(AnswerStage::Complete, AnswerEvent::Done) == (
            AnswerStage::Over,
            AnswerActionView::Finish,
        ),
        answered(AnswerStage::Read, AnswerEvent::Offer(true)) == (
            AnswerStage::Refuse,
            AnswerActionView::Refuse,
        ),
        answered(AnswerStage::Refuse, AnswerEvent::Done) == (
            AnswerStage::Over,
            AnswerActionView::Finish,
        ),
        forall|stage: AnswerStage|
            !(stage is Over) ==> #[trigger] answered(stage, AnswerEvent::Failed(step, why)) == (
                AnswerStage::Over,
                AnswerActionView::Fail(step.text() + ": "@ + why@),
            ),
        forall|event: AnswerEvent| #[trigger]
            answered(AnswerStage::Over, event) == (AnswerStage::Over, AnswerActionView::Nothing),
{
}

} // verus!
