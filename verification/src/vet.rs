//! Vetting one candidate: a peer that says it can serve a share in the
//! origin's place.
use crate::authorship::PublicKey;
use crate::digest::{fingerprint, manifest_fingerprint};
use crate::fetch::{open_envelope, opened};
use crate::probe::{probe_of, probe_target};
use crate::text::{chars_of, text_eq, text_of};
use vstd::prelude::*;

verus! {

/// How long to wait for a data channel before the relay is taken, in
/// milliseconds.
pub const SEEDER_CHANNEL_WAIT_MS: u64 = 15_000;

/// How long a dial sleeps between two looks for a channel, in milliseconds.
pub const CHANNEL_POLL_MS: u64 = 1_000;

/// Whether another offer is due: one at entry, and one more once half of the
/// wait has passed without a session.
#[must_use]
pub fn reoffer_due(offers: u32, elapsed_ms: u64, wait_ms: u64) -> (due: bool)
    ensures
        due == offer_is_due(offers, elapsed_ms, wait_ms),
{
    if offers == 0 {
        true
    } else if offers == 1 {
        elapsed_ms > wait_ms / 2
    } else {
        false
    }
}

/// Whether an offer is due.
pub open spec fn offer_is_due(offers: u32, elapsed_ms: u64, wait_ms: u64) -> bool {
    offers == 0 || (offers == 1 && 2 * elapsed_ms > wait_ms)
}

/// A dial over a data channel to be: how many offers it has made.
#[derive(Debug, Clone, Copy, PartialEq, Eq, Structural)]
pub struct ChannelDial {
    pub offers: u32,
    pub wait_ms: u64,
}

/// What a dial over a data channel sees.
#[derive(Debug, Clone, Copy, PartialEq, Eq, Structural)]
pub enum DialEvent {
    /// It looked for a session.
    Looked { has_session: bool, elapsed_ms: u64 },
    /// An offer was answered, or failed; either way the next look tells.
    Offered { elapsed_ms: u64 },
}

/// What a dial over a data channel does next.
#[derive(Debug, Clone, Copy, PartialEq, Eq, Structural)]
pub enum DialAction {
    /// Dial the mount over the session that stands.
    Dial,
    /// Make this offer, counted from one.
    Offer(u32),
    /// Look again after a sleep.
    Sleep,
    /// Concede the relay.
    GiveUp,
}

/// Why a dial over a data channel was given up.
pub const NO_CHANNEL: &'static str = "no data channel formed inside the wait; conceding to the relay";

/// What an event leads to.
pub open spec fn dialled(dial: ChannelDial, event: DialEvent) -> (ChannelDial, DialAction) {
    match event {
        DialEvent::Looked { has_session: true, elapsed_ms: _ } => (dial, DialAction::Dial),
        DialEvent::Looked { has_session: false, elapsed_ms } => if offer_is_due(
            dial.offers,
            elapsed_ms,
            dial.wait_ms,
        ) {
            (
                ChannelDial { offers: (dial.offers + 1) as u32, ..dial },
                DialAction::Offer((dial.offers + 1) as u32),
            )
        } else {
            (dial, waited(elapsed_ms, dial.wait_ms))
        },
        DialEvent::Offered { elapsed_ms } => (dial, waited(elapsed_ms, dial.wait_ms)),
    }
}

/// Sleep while the wait lasts.
pub open spec fn waited(elapsed_ms: u64, wait_ms: u64) -> DialAction {
    if elapsed_ms > wait_ms {
        DialAction::GiveUp
    } else {
        DialAction::Sleep
    }
}

/// Takes one event of a dial over a data channel.
pub fn seeder_webrtc_dial(dial: ChannelDial, event: DialEvent) -> (out: (ChannelDial, DialAction))
    ensures
        out == dialled(dial, event),
{
    match event {
        DialEvent::Looked { has_session, elapsed_ms } => {
            if has_session {
                (dial, DialAction::Dial)
            } else if reoffer_due(dial.offers, elapsed_ms, dial.wait_ms) {
                let round: u32 = dial.offers + 1;
                (ChannelDial { offers: round, wait_ms: dial.wait_ms }, DialAction::Offer(round))
            } else if elapsed_ms > dial.wait_ms {
                (dial, DialAction::GiveUp)
            } else {
                (dial, DialAction::Sleep)
            }
        },
        DialEvent::Offered { elapsed_ms } => {
            if elapsed_ms > dial.wait_ms {
                (dial, DialAction::GiveUp)
            } else {
                (dial, DialAction::Sleep)
            }
        },
    }
}

/// A dial offers at once, never more than twice, dials the moment a session
/// stands, and gives up only after the whole wait.
pub proof fn law_a_channel_gets_two_offers(dial: ChannelDial, event: DialEvent)
    requires
        dial.offers <= 2,
    ensures
        dialled(dial, event).0.offers <= 2,
        dialled(dial, event).1 is Offer ==> dialled(dial, event).1->Offer_0 <= 2,
        event matches DialEvent::Looked { has_session: true, .. } ==> dialled(dial, event).1
            is Dial,
        event matches DialEvent::Looked { has_session: false, elapsed_ms } ==> (dial.offers == 0
            ==> dialled(dial, event).1 is Offer) && (dialled(dial, event).1 is GiveUp ==> elapsed_ms
            > dial.wait_ms),
        event matches DialEvent::Offered { elapsed_ms } ==> (dialled(dial, event).1 is GiveUp
            <==> elapsed_ms > dial.wait_ms),
{
}

/// How an endpoint is named in a message: its first eight characters.
pub open spec fn short_name(endpoint: Seq<char>) -> Seq<char> {
    if endpoint.len() < 8 {
        endpoint
    } else {
        endpoint.take(8)
    }
}

#[must_use]
pub fn short_of(endpoint: &str) -> (text: String)
    ensures
        text@ == short_name(endpoint@),
{
    let chars = chars_of(endpoint);
    if chars.len() < 8 {
        assert(chars@ =~= endpoint@);
        text_of(chars.as_slice())
    } else {
        text_of(vstd::slice::slice_subrange(chars.as_slice(), 0, 8))
    }
}

/// What a candidate is held to.
#[derive(Debug, Clone)]
pub struct VetTerms {
    /// The candidate's endpoint.
    pub endpoint: String,
    /// The tree it has to serve.
    pub tree: String,
    /// The share's creator, where the share is signed.
    pub author: Option<PublicKey>,
}

pub open spec fn author_of(terms: VetTerms) -> Option<Seq<u8>> {
    match terms.author {
        Some(key) => Some(key@),
        None => None,
    }
}

/// Where the vetting of a candidate stands.
#[derive(Debug, Clone, PartialEq, Eq)]
pub enum VetStage {
    /// Dialling over a data channel.
    Channel,
    /// Dialling over the relay, since the data channel failed for this reason.
    Relay(String),
    /// Asking for the listing, over a data channel or not.
    Listing(bool),
    /// Proving that the data channel carries bulk; the envelope is in hand.
    Probe(Vec<u8>),
    /// Dialling over the relay, since the data channel carried no bulk.
    Redial(Vec<u8>),
    Over,
}

/// What happened to a candidate.
#[derive(Debug, Clone, PartialEq, Eq)]
pub enum VetEvent {
    /// A dial landed.
    Reached,
    /// A dial failed.
    Unreached(String),
    /// It served an envelope.
    Served(Vec<u8>),
    /// It served none.
    Unserved(String),
    /// The data channel carried bulk.
    Proven,
    /// It did not.
    Unproven,
}

/// What the vetting of a candidate does next. It starts with a dial over a data
/// channel: bytes are meant to flow from peer to peer, and the relay is the
/// fallback.
#[derive(Debug, Clone, PartialEq, Eq)]
pub enum VetAction {
    DialRelay,
    /// Ask for the listing. The peer answered a dial, which is the one thing
    /// that may cut a dial of the origin short.
    Fetch,
    /// Read this much of this file.
    Probe(u32, u32),
    /// Close the data channel and dial over the relay.
    CloseAndRedial,
    /// The candidate stands: its envelope, and whether it was demoted to the
    /// relay.
    Accept(Vec<u8>, bool),
    Refuse(String),
    Nothing,
}

pub enum VetActionView {
    DialRelay,
    Fetch,
    Probe(u32, u32),
    CloseAndRedial,
    Accept(Seq<u8>, bool),
    Refuse(Seq<char>),
    Nothing,
}

impl View for VetAction {
    type V = VetActionView;

    open spec fn view(&self) -> VetActionView {
        match *self {
            VetAction::DialRelay => VetActionView::DialRelay,
            VetAction::Fetch => VetActionView::Fetch,
            VetAction::Probe(index, len) => VetActionView::Probe(index, len),
            VetAction::CloseAndRedial => VetActionView::CloseAndRedial,
            VetAction::Accept(body, demoted) => VetActionView::Accept(body@, demoted),
            VetAction::Refuse(text) => VetActionView::Refuse(text@),
            VetAction::Nothing => VetActionView::Nothing,
        }
    }
}

/// A refusal: who, and why.
pub open spec fn refusal(terms: VetTerms, why: Seq<char>) -> VetActionView {
    VetActionView::Refuse(short_name(terms.endpoint@) + ": "@ + why)
}

/// Whether an envelope is the listing the candidate was named for: it opens, and
/// its listing has the tree's fingerprint.
pub open spec fn backs(terms: VetTerms, body: Seq<u8>) -> bool {
    opened(body, author_of(terms), 0) matches Ok(pair) && fingerprint(pair.0.manifest)
        == terms.tree@
}

/// What an envelope leads to.
pub open spec fn served(terms: VetTerms, via_channel: bool, body: Vec<u8>) -> (
    VetStage,
    VetActionView,
) {
    match opened(body@, author_of(terms), 0) {
        Err(e) => (VetStage::Over, refusal(terms, "decode manifest: "@ + e.text())),
        Ok((signed, m)) => if fingerprint(signed.manifest) != terms.tree@ {
            (
                VetStage::Over,
                refusal(terms, "served a different tree than its card claimed"@),
            )
        } else {
            match probe_of(m.files) {
                Some((index, len)) if via_channel => (
                    VetStage::Probe(body),
                    VetActionView::Probe(index, len),
                ),
                _ => (VetStage::Over, VetActionView::Accept(body@, false)),
            }
        },
    }
}

/// What an event leads to. A lie about the tree disqualifies; only a data
/// channel has to prove that it carries bulk, and one that does not is replaced
/// by the relay.
pub open spec fn vetted(terms: VetTerms, stage: VetStage, event: VetEvent) -> (
    VetStage,
    VetActionView,
) {
    match (stage, event) {
        (VetStage::Channel, VetEvent::Reached) => (VetStage::Listing(true), VetActionView::Fetch),
        (VetStage::Channel, VetEvent::Unreached(why)) => (
            VetStage::Relay(why),
            VetActionView::DialRelay,
        ),
        (VetStage::Relay(_), VetEvent::Reached) => (
            VetStage::Listing(false),
            VetActionView::Fetch,
        ),
        (VetStage::Relay(webrtc), VetEvent::Unreached(relay)) => (
            VetStage::Over,
            refusal(terms, "webrtc: "@ + webrtc@ + "; relay: "@ + relay@),
        ),
        (VetStage::Listing(_), VetEvent::Unserved(why)) => (VetStage::Over, refusal(terms, why@)),
        (VetStage::Listing(via_channel), VetEvent::Served(body)) => served(
            terms,
            via_channel,
            body,
        ),
        (VetStage::Probe(body), VetEvent::Proven) => (
            VetStage::Over,
            VetActionView::Accept(body@, false),
        ),
        (VetStage::Probe(body), VetEvent::Unproven) => (
            VetStage::Redial(body),
            VetActionView::CloseAndRedial,
        ),
        (VetStage::Redial(body), VetEvent::Reached) => (
            VetStage::Over,
            VetActionView::Accept(body@, true),
        ),
        (VetStage::Redial(_), VetEvent::Unreached(why)) => (
            VetStage::Over,
            refusal(terms, "relay redial after failed probe: "@ + why@),
        ),
        _ => (stage, VetActionView::Nothing),
    }
}

fn refuse(terms: &VetTerms, parts: &[&str]) -> (action: VetAction)
    requires
        1 <= parts@.len() <= 4,
    ensures
        action@ == refusal(*terms, joined(parts@)),
{
    let mut text = short_of(terms.endpoint.as_str());
    text.push_str(": ");
    let ghost head = text@;
    let mut i: usize = 0;
    assert(parts@.take(0) =~= Seq::empty());
    while i < parts.len()
        invariant
            0 <= i <= parts@.len(),
            text@ == head + joined(parts@.take(i as int)),
        decreases parts@.len() - i,
    {
        text.push_str(parts[i]);
        assert(parts@.take(i as int + 1).drop_last() =~= parts@.take(i as int));
        assert(text@ =~= head + joined(parts@.take(i as int + 1)));
        i += 1;
    }
    assert(parts@.take(i as int) =~= parts@);
    VetAction::Refuse(text)
}

/// Texts one behind the other.
pub open spec fn joined(parts: Seq<&str>) -> Seq<char>
    decreases parts.len(),
{
    if parts.len() == 0 {
        Seq::empty()
    } else {
        joined(parts.drop_last()) + parts.last()@
    }
}

/// Takes one event of vetting a candidate.
pub fn vet_seeder_candidate(terms: &VetTerms, stage: VetStage, event: VetEvent) -> (out: (
    VetStage,
    VetAction,
))
    ensures
        (out.0, out.1@) == vetted(*terms, stage, event),
{
    match (stage, event) {
        (VetStage::Channel, VetEvent::Reached) => (VetStage::Listing(true), VetAction::Fetch),
        (VetStage::Channel, VetEvent::Unreached(why)) => (
            VetStage::Relay(why),
            VetAction::DialRelay,
        ),
        (VetStage::Relay(_), VetEvent::Reached) => (VetStage::Listing(false), VetAction::Fetch),
        (VetStage::Relay(webrtc), VetEvent::Unreached(relay)) => {
            let action = refuse(
                terms,
                ["webrtc: ", webrtc.as_str(), "; relay: ", relay.as_str()].as_slice(),
            );
            proof {
                reveal_with_fuel(joined, 5);
            }
            (VetStage::Over, action)
        },
        (VetStage::Listing(_), VetEvent::Unserved(why)) => {
            let action = refuse(terms, [why.as_str()].as_slice());
            proof {
                reveal_with_fuel(joined, 2);
            }
            (VetStage::Over, action)
        },
        (VetStage::Listing(via_channel), VetEvent::Served(body)) => vet_listing(
            terms,
            via_channel,
            body,
        ),
        (VetStage::Probe(body), VetEvent::Proven) => (
            VetStage::Over,
            VetAction::Accept(body, false),
        ),
        (VetStage::Probe(body), VetEvent::Unproven) => (
            VetStage::Redial(body),
            VetAction::CloseAndRedial,
        ),
        (VetStage::Redial(body), VetEvent::Reached) => (
            VetStage::Over,
            VetAction::Accept(body, true),
        ),
        (VetStage::Redial(_), VetEvent::Unreached(why)) => {
            let action = refuse(
                terms,
                ["relay redial after failed probe: ", why.as_str()].as_slice(),
            );
            proof {
                reveal_with_fuel(joined, 3);
            }
            (VetStage::Over, action)
        },
        (stage, _) => (stage, VetAction::Nothing),
    }
}

/// Holds an envelope against what its peer was named for.
fn vet_listing(terms: &VetTerms, via_channel: bool, body: Vec<u8>) -> (out: (VetStage, VetAction))
    ensures
        (out.0, out.1@) == served(*terms, via_channel, body),
{
    let opened = match &terms.author {
        Some(key) => open_envelope(body.as_slice(), Some(key), 0),
        None => open_envelope(body.as_slice(), None, 0),
    };
    let (signed, manifest) = match opened {
        Err(e) => {
            let action = refuse(terms, ["decode manifest: ", e.message()].as_slice());
            proof {
                reveal_with_fuel(joined, 3);
            }
            return (VetStage::Over, action);
        },
        Ok(pair) => pair,
    };
    let tree = manifest_fingerprint(signed.manifest.as_slice());
    if !text_eq(tree.as_str(), terms.tree.as_str()) {
        let action = refuse(terms, ["served a different tree than its card claimed"].as_slice());
        proof {
            reveal_with_fuel(joined, 2);
        }
        return (VetStage::Over, action);
    }
    let target: Option<(u32, u32)> = probe_target(manifest.files.as_slice());
    match target {
        Some((index, len)) => {
            if via_channel {
                (VetStage::Probe(body), VetAction::Probe(index, len))
            } else {
                (VetStage::Over, VetAction::Accept(body, false))
            }
        },
        None => (VetStage::Over, VetAction::Accept(body, false)),
    }
}

/// Whether the envelope a stage has in hand backs its candidate.
pub open spec fn in_hand_backs(terms: VetTerms, stage: VetStage) -> bool {
    match stage {
        VetStage::Probe(body) => backs(terms, body@),
        VetStage::Redial(body) => backs(terms, body@),
        _ => true,
    }
}

proof fn lemma_served(terms: VetTerms, via_channel: bool, body: Vec<u8>)
    ensures
        in_hand_backs(terms, served(terms, via_channel, body).0),
        served(terms, via_channel, body).1 matches VetActionView::Accept(b, _) ==> backs(terms, b),
{
}

/// Nobody is taken on their word: whichever way the vetting goes, a candidate
/// that is accepted served an envelope with the tree it was named for, and on a
/// signed share the creator published it.
#[verifier::spinoff_prover]
#[verifier::rlimit(80)]
pub proof fn law_only_a_peer_with_the_tree_is_accepted(
    terms: VetTerms,
    stage: VetStage,
    event: VetEvent,
)
    requires
        in_hand_backs(terms, stage),
    ensures
        in_hand_backs(terms, vetted(terms, stage, event).0),
        vetted(terms, stage, event).1 matches VetActionView::Accept(body, _) ==> backs(terms, body),
{
    match (stage, event) {
        (VetStage::Listing(via_channel), VetEvent::Served(body)) => {
            lemma_served(terms, via_channel, body);
        },
        (VetStage::Probe(_), _) => {},
        (VetStage::Redial(_), _) => {},
        _ => {},
    }
}

/// Only a data channel is probed, and one that fails the probe does not cost the
/// candidate: it is replaced by the relay, and accepted as such.
pub proof fn law_a_stalled_channel_is_demoted(terms: VetTerms, body: Vec<u8>)
    ensures
        vetted(terms, VetStage::Probe(body), VetEvent::Unproven) == (
            VetStage::Redial(body),
            VetActionView::CloseAndRedial,
        ),
        vetted(terms, VetStage::Redial(body), VetEvent::Reached).1 == VetActionView::Accept(
            body@,
            true,
        ),
        !(vetted(terms, VetStage::Listing(false), VetEvent::Served(body)).1 is Probe),
        backs(terms, body@) ==> vetted(
            terms,
            VetStage::Listing(false),
            VetEvent::Served(body),
        ).1 == VetActionView::Accept(body@, false),
{
}

/// A peer is looked at step by step: over the data channel first, over the relay
/// where that cannot be reached, and refused where neither can. Whichever reaches
/// it, its listing is asked for next; a peer that does not serve one is refused.
pub proof fn law_a_peer_is_reached_and_asked(terms: VetTerms, why: String, relay: String, via: bool)
    ensures
        vetted(terms, VetStage::Channel, VetEvent::Reached) == (
            VetStage::Listing(true),
            VetActionView::Fetch,
        ),
        vetted(terms, VetStage::Channel, VetEvent::Unreached(why)) == (
            VetStage::Relay(why),
            VetActionView::DialRelay,
        ),
        vetted(terms, VetStage::Relay(why), VetEvent::Reached) == (
            VetStage::Listing(false),
            VetActionView::Fetch,
        ),
        ({
            let step = vetted(terms, VetStage::Relay(why), VetEvent::Unreached(relay));
            step.0 is Over && step.1 is Refuse
        }),
        ({
            let step = vetted(terms, VetStage::Listing(via), VetEvent::Unserved(why));
            step.0 is Over && step.1 is Refuse
        }),
{
}

/// A listing is held against what the peer's card claims. One that opens and is of
/// that tree has the peer taken, after a read that proves the channel where the
/// tree has something to read and the channel is what reached the peer. Any other
/// has the peer refused.
pub proof fn law_a_listing_decides(terms: VetTerms, via: bool, body: Vec<u8>)
    ensures
        ({
            let step = vetted(terms, VetStage::Listing(via), VetEvent::Served(body));
            match opened(body@, author_of(terms), 0) {
                Ok((signed, m)) => if fingerprint(signed.manifest) == terms.tree@ {
                    match probe_of(m.files) {
                        Some((index, len)) if via => step == (
                            VetStage::Probe(body),
                            VetActionView::Probe(index, len),
                        ),
                        _ => step == (VetStage::Over, VetActionView::Accept(body@, false)),
                    }
                } else {
                    step.0 is Over && step.1 is Refuse
                },
                Err(_) => step.0 is Over && step.1 is Refuse,
            }
        }),
        vetted(terms, VetStage::Probe(body), VetEvent::Proven) == (
            VetStage::Over,
            VetActionView::Accept(body@, false),
        ),
        vetted(terms, VetStage::Redial(body), VetEvent::Reached) == (
            VetStage::Over,
            VetActionView::Accept(body@, true),
        ),
        forall|why: String|
            {
                let step = #[trigger] vetted(terms, VetStage::Redial(body), VetEvent::Unreached(why));
                step.0 is Over && step.1 is Refuse
            },
{
}

/// A peer whose vetting is over is not looked at again.
pub proof fn law_a_verdict_stands(terms: VetTerms, event: VetEvent)
    ensures
        vetted(terms, VetStage::Over, event) == (VetStage::Over, VetActionView::Nothing),
{
}

/// Without a session a dial offers at once, and once more when half the wait is
/// over. Between its offers it sleeps, and it gives up when the wait is over.
pub proof fn law_a_dial_offers_sleeps_and_gives_up(dial: ChannelDial, elapsed_ms: u64)
    requires
        dial.offers < u32::MAX,
    ensures
        ({
            let step = dialled(dial, DialEvent::Looked { has_session: false, elapsed_ms });
            let due = dial.offers == 0 || (dial.offers == 1 && elapsed_ms > dial.wait_ms
                - elapsed_ms);
            &&& due ==> step.0.offers == dial.offers + 1 && step.0.wait_ms == dial.wait_ms
                && step.1 == DialAction::Offer((dial.offers + 1) as u32)
            &&& !due ==> step.0 == dial && step.1 == (if elapsed_ms > dial.wait_ms {
                DialAction::GiveUp
            } else {
                DialAction::Sleep
            })
        }),
        dialled(dial, DialEvent::Looked { has_session: true, elapsed_ms }) == (
            dial,
            DialAction::Dial,
        ),
        dialled(dial, DialEvent::Offered { elapsed_ms }) == (
            dial,
            if elapsed_ms > dial.wait_ms {
                DialAction::GiveUp
            } else {
                DialAction::Sleep
            },
        ),
{
}

/// A peer is named by the first eight characters of its endpoint, or by all of a
/// shorter one.
pub proof fn law_a_short_name_is_a_prefix(endpoint: Seq<char>)
    ensures
        endpoint.len() <= 8 ==> short_name(endpoint) == endpoint,
        endpoint.len() > 8 ==> short_name(endpoint).len() == 8 && short_name(endpoint)
            == endpoint.subrange(0, 8),
{
    if endpoint.len() == 8 {
        assert(endpoint.take(8) =~= endpoint);
    }
    if endpoint.len() > 8 {
        assert(endpoint.take(8) =~= endpoint.subrange(0, 8));
    }
}

/// A peer whose channel did not carry the read is dialled again over the relay, and
/// taken as demoted where that reaches it.
pub proof fn law_a_failed_probe_demotes(terms: VetTerms, body: Vec<u8>)
    ensures
        vetted(terms, VetStage::Probe(body), VetEvent::Unproven) == (
            VetStage::Redial(body),
            VetActionView::CloseAndRedial,
        ),
        vetted(terms, VetStage::Redial(body), VetEvent::Reached) == (
            VetStage::Over,
            VetActionView::Accept(body@, true),
        ),
{
}

/// A refusal names the peer and says why: what failed on each path, what the peer
/// said, or what was wrong with its listing.
pub proof fn law_a_refusal_says_who_and_why(
    terms: VetTerms,
    why: String,
    relay: String,
    via: bool,
    body: Vec<u8>,
)
    ensures
        ({
            let who = short_name(terms.endpoint@) + ": "@;
            &&& vetted(terms, VetStage::Relay(why), VetEvent::Unreached(relay)).1
                == VetActionView::Refuse(who + ("webrtc: "@ + why@ + "; relay: "@ + relay@))
            &&& vetted(terms, VetStage::Listing(via), VetEvent::Unserved(why)).1
                == VetActionView::Refuse(who + why@)
            &&& vetted(terms, VetStage::Redial(body), VetEvent::Unreached(why)).1
                == VetActionView::Refuse(who + ("relay redial after failed probe: "@ + why@))
            &&& match opened(body@, author_of(terms), 0) {
                Err(e) => vetted(terms, VetStage::Listing(via), VetEvent::Served(body)).1
                    == VetActionView::Refuse(who + ("decode manifest: "@ + e.text())),
                Ok((signed, m)) => fingerprint(signed.manifest) != terms.tree@ ==> vetted(
                    terms,
                    VetStage::Listing(via),
                    VetEvent::Served(body),
                ).1 == VetActionView::Refuse(
                    who + "served a different tree than its card claimed"@,
                ),
            }
        }),
{
}

} // verus!
