//! Reading a share from its peers where the origin cannot be reached: the lane
//! that looks for a seeder, and what becomes of the one it finds.
use crate::candidates::{
    backers, candidates, keys_of, launch_views, majority, majority_tree, plan_race, race_launches,
    ranked, vouchers, vouching, width, Keyed, Launch, LaunchView,
};
use crate::client::{CardView, PeerCard};
use crate::digest::{fingerprint, manifest_fingerprint};
use crate::fetch::{unauthorized, unauthorized_text};
use crate::known_seeders::{
    capped, forget_known_seeders, known_views, others, texts, upsert_known_seeder, KnownSeeder,
    KnownView,
};
use crate::lookup::{url_views, RelayChoice, RelayUrl, RelayView};
use crate::peers::endpoints;
use crate::roster::card_views;
use crate::serving::{encode_serving, serving_field};
use crate::sync::{in_order, HeldSet};
use crate::text::opt_text;
use crate::vet::{short_name, short_of};
use vstd::prelude::*;

verus! {

/// How long cards are waited for, in milliseconds.
pub const SEEDER_CARDS_DEADLINE_MS: u64 = 12_000;

/// How long the lane sleeps between two looks for cards, in milliseconds.
pub const SEEDER_CARDS_POLL_MS: u64 = 500;

/// The bound of one race, in milliseconds.
pub const SEEDER_RACE_DEADLINE_MS: u64 = 35_000;

/// The bound of dialling the seeders of an earlier connect, in milliseconds.
pub const KNOWN_SEEDER_REDIAL_DEADLINE_MS: u64 = 10_000;

/// How long such a dial waits for a data channel, in milliseconds.
pub const KNOWN_SEEDER_CHANNEL_WAIT_MS: u64 = 6_000;

/// How a race of attempts ended.
#[derive(Debug, Clone, Copy, PartialEq, Eq, Structural)]
pub enum RaceOutcome {
    /// This attempt succeeded; the others are dropped.
    Winner(usize),
    /// Every attempt was refused.
    AllFailed,
    /// The deadline passed with attempts still running.
    DeadlineExpired,
}

/// A race of attempts: how many still run, and why the others do not.
#[derive(Debug, Clone, PartialEq, Eq)]
pub struct Attempts {
    pub pending: usize,
    pub refusals: Vec<String>,
}

pub struct AttemptsView {
    pub pending: nat,
    pub refusals: Seq<Seq<char>>,
}

impl View for Attempts {
    type V = AttemptsView;

    open spec fn view(&self) -> AttemptsView {
        AttemptsView { pending: self.pending as nat, refusals: texts(self.refusals@) }
    }
}

/// What happens in a race of attempts.
#[derive(Debug, Clone, PartialEq, Eq)]
pub enum AttemptEvent {
    Won(usize),
    Refused(String),
    Deadline,
}

/// How a race with that many attempts running has ended, before anything more
/// happens.
pub open spec fn exhausted(pending: nat) -> Option<RaceOutcome> {
    if pending == 0 {
        Some(RaceOutcome::AllFailed)
    } else {
        None
    }
}

/// What an event does to a race, and how it ends if it does.
pub open spec fn raced(race: AttemptsView, event: AttemptEvent) -> (
    AttemptsView,
    Option<RaceOutcome>,
) {
    match event {
        AttemptEvent::Won(which) => (race, Some(RaceOutcome::Winner(which))),
        AttemptEvent::Deadline => (race, Some(RaceOutcome::DeadlineExpired)),
        AttemptEvent::Refused(why) => {
            let left = if race.pending == 0 {
                0
            } else {
                (race.pending - 1) as nat
            };
            (
                AttemptsView { pending: left, refusals: race.refusals.push(why@) },
                exhausted(left),
            )
        },
    }
}

impl Attempts {
    /// A race of this many attempts, and how it ends if there are none.
    #[must_use]
    pub fn begin(pending: usize) -> (out: (Self, Option<RaceOutcome>))
        ensures
            out.0@ == (AttemptsView { pending: pending as nat, refusals: Seq::empty() }),
            out.1 == exhausted(pending as nat),
    {
        let race = Attempts { pending, refusals: Vec::new() };
        assert(texts(race.refusals@) =~= Seq::empty());
        let end = if pending == 0 {
            Some(RaceOutcome::AllFailed)
        } else {
            None
        };
        (race, end)
    }
}

/// Takes an event of a race: the first success ends it, a refusal leaves the
/// rest running, and the deadline ends it whatever runs.
pub fn first_success(race: Attempts, event: AttemptEvent) -> (out: (Attempts, Option<RaceOutcome>))
    ensures
        (out.0@, out.1) == raced(race@, event),
{
    match event {
        AttemptEvent::Won(which) => (race, Some(RaceOutcome::Winner(which))),
        AttemptEvent::Deadline => (race, Some(RaceOutcome::DeadlineExpired)),
        AttemptEvent::Refused(why) => {
            let ghost was = race@;
            let ghost said = why@;
            let pending: usize = if race.pending == 0 {
                0
            } else {
                race.pending - 1
            };
            let mut refusals = race.refusals;
            refusals.push(why);
            assert(texts(refusals@) =~= was.refusals.push(said));
            let end = if pending == 0 {
                Some(RaceOutcome::AllFailed)
            } else {
                None
            };
            (Attempts { pending, refusals }, end)
        },
    }
}

/// A race after a number of refusals.
pub open spec fn after_refusals(race: AttemptsView, whys: Seq<String>) -> AttemptsView
    decreases whys.len(),
{
    if whys.len() == 0 {
        race
    } else {
        raced(after_refusals(race, whys.drop_last()), AttemptEvent::Refused(whys.last())).0
    }
}

/// Refusals do not cost a race its winner: as long as fewer attempts were
/// refused than started it goes on, and the one that succeeds wins it. It fails
/// with the last refusal, and names every one of them in their order.
pub proof fn law_one_success_beats_any_refusals(
    pending: nat,
    whys: Seq<String>,
    last: String,
    which: usize,
)
    requires
        whys.len() < pending,
    ensures
        ({
            let start = AttemptsView { pending, refusals: Seq::empty() };
            let race = after_refusals(start, whys);
            &&& race.pending == pending - whys.len()
            &&& race.refusals == texts(whys)
            &&& exhausted(race.pending) is None
            &&& raced(race, AttemptEvent::Won(which)).1 == Some(RaceOutcome::Winner(which))
            &&& (raced(race, AttemptEvent::Refused(last)).1 == Some(RaceOutcome::AllFailed)
                <==> whys.len() + 1 == pending)
        }),
    decreases whys.len(),
{
    let start = AttemptsView { pending, refusals: Seq::empty() };
    if whys.len() > 0 {
        law_one_success_beats_any_refusals(pending, whys.drop_last(), last, which);
        assert(texts(whys) =~= texts(whys.drop_last()).push(whys.last()@));
    } else {
        assert(texts(whys) =~= Seq::empty());
    }
}

/// Texts in a list, with separators between them.
pub open spec fn listed(list: Seq<Seq<char>>) -> Seq<char>
    decreases list.len(),
{
    if list.len() == 0 {
        Seq::empty()
    } else if list.len() == 1 {
        list[0]
    } else {
        listed(list.drop_last()) + "; "@ + list.last()
    }
}

fn list_texts(list: &[String]) -> (text: String)
    ensures
        text@ == listed(texts(list@)),
{
    let ghost all = texts(list@);
    let mut text = String::new();
    let mut i: usize = 0;
    assert(text@ =~= listed(all.take(0)));
    while i < list.len()
        invariant
            0 <= i <= list@.len(),
            all == texts(list@),
            text@ == listed(all.take(i as int)),
        decreases list@.len() - i,
    {
        let ghost upto = all.take(i as int + 1);
        assert(upto.drop_last() =~= all.take(i as int));
        assert(upto.last() == list@[i as int]@);
        if i > 0 {
            text.push_str("; ");
        }
        text.push_str(list[i].as_str());
        assert(text@ =~= listed(upto));
        i += 1;
    }
    assert(all.take(i as int) =~= all);
    text
}

/// Where a lane stands.
#[derive(Debug, Clone, PartialEq, Eq)]
pub enum LaneStage {
    /// Joining the share's mesh, or taking up a membership that waited.
    Join,
    /// Looking for what this peer itself has stored.
    Rearm,
    /// Dialling the seeders of an earlier connect.
    Redial,
    /// Waiting for cards.
    Poll,
    /// Racing candidates for this tree.
    Race(String),
    Over,
}

pub enum LaneStageView {
    Join,
    Rearm,
    Redial,
    Poll,
    Race(Seq<char>),
    Over,
}

impl View for LaneStage {
    type V = LaneStageView;

    open spec fn view(&self) -> LaneStageView {
        match *self {
            LaneStage::Join => LaneStageView::Join,
            LaneStage::Rearm => LaneStageView::Rearm,
            LaneStage::Redial => LaneStageView::Redial,
            LaneStage::Poll => LaneStageView::Poll,
            LaneStage::Race(tree) => LaneStageView::Race(tree@),
            LaneStage::Over => LaneStageView::Over,
        }
    }
}

/// What a lane is told.
#[derive(Debug, Clone)]
pub enum LaneEvent {
    Joined,
    JoinFailed(String),
    /// Whatever was stored is served again.
    Rearmed,
    /// Whether a seeder of an earlier connect was found.
    Redialled(bool),
    /// The cards known by now, numbers to order candidates with, and how long
    /// cards have been waited for.
    Cards(Vec<PeerCard>, Vec<u64>, u64),
    /// A candidate was vetted: its endpoint.
    Won(String),
    /// Every candidate was refused, for these reasons.
    AllFailed(Vec<String>),
    /// The race ran out of time; these were refused by then.
    DeadlineExpired(Vec<String>),
}

/// What a lane does next.
#[derive(Debug, Clone, PartialEq, Eq)]
pub enum LaneAction {
    Rearm,
    Redial,
    /// Look for cards, after this long.
    Poll(u64),
    Race(Vec<Launch>),
    /// Read from this endpoint, held to this tree, and remember both.
    Adopt(String, String),
    /// Read from the seeder the redial found.
    UseKnown,
    Fail(String),
    Nothing,
}

pub enum LaneActionView {
    Rearm,
    Redial,
    Poll(u64),
    Race(Seq<LaunchView>),
    Adopt(Seq<char>, Seq<char>),
    UseKnown,
    Fail(Seq<char>),
    Nothing,
}

impl View for LaneAction {
    type V = LaneActionView;

    open spec fn view(&self) -> LaneActionView {
        match *self {
            LaneAction::Rearm => LaneActionView::Rearm,
            LaneAction::Redial => LaneActionView::Redial,
            LaneAction::Poll(ms) => LaneActionView::Poll(ms),
            LaneAction::Race(launches) => LaneActionView::Race(launch_views(launches@)),
            LaneAction::Adopt(endpoint, tree) => LaneActionView::Adopt(endpoint@, tree@),
            LaneAction::UseKnown => LaneActionView::UseKnown,
            LaneAction::Fail(text) => LaneActionView::Fail(text@),
            LaneAction::Nothing => LaneActionView::Nothing,
        }
    }
}

/// What a lane works with.
#[derive(Debug, Clone, PartialEq, Eq)]
pub struct LaneTerms {
    /// Why the origin could not be reached.
    pub origin: String,
    /// This peer's endpoint on the mesh.
    pub own: String,
    /// Whether the ticket names a relay to dial over.
    pub has_relay: bool,
    /// Whether the share has a password that nothing could check locally: it is
    /// protected, and its ticket names no mesh.
    pub unchecked_password: bool,
}

/// A failure that starts with why the origin could not be reached.
pub open spec fn origin_and(terms: LaneTerms, rest: Seq<char>) -> Seq<char> {
    "the origin is unreachable ("@ + terms.origin@ + ")"@ + rest
}

/// Why nobody can be asked: nobody vouches for the share. Where the password
/// could not be checked it may be what is wrong.
pub open spec fn nobody_vouches(terms: LaneTerms) -> Seq<char> {
    let detail = origin_and(terms, " and no peer on the mesh vouches for the share"@);
    if terms.unchecked_password {
        unauthorized_text(detail + " — the password may also be wrong"@)
    } else {
        detail
    }
}

/// The candidates of cards: those that back the tree most vouch for, in order.
pub open spec fn candidate_cards(vouchers: Seq<CardView>, tree: Seq<char>, keys: Seq<u64>) -> Seq<
    CardView,
> {
    ranked(backers(vouchers, tree, keys)).map_values(|k: Keyed| k.0)
}

/// The dials that cards lead to.
pub open spec fn dials(vouchers: Seq<CardView>, tree: Seq<char>, keys: Seq<u64>) -> Seq<
    LaunchView,
> {
    let list = width(endpoints(candidate_cards(vouchers, tree, keys)));
    race_launches(list, keys_of(list), tree)
}

/// What the cards known by now lead to.
pub open spec fn polled(
    terms: LaneTerms,
    cards: Seq<CardView>,
    keys: Seq<u64>,
    elapsed_ms: u64,
) -> (LaneStageView, LaneActionView) {
    match majority_tree(vouching(cards, terms.own@)) {
        None => if elapsed_ms > SEEDER_CARDS_DEADLINE_MS {
            (LaneStageView::Over, LaneActionView::Fail(nobody_vouches(terms)))
        } else {
            (LaneStageView::Poll, LaneActionView::Poll(SEEDER_CARDS_POLL_MS))
        },
        Some(tree) => {
            let launches = dials(vouching(cards, terms.own@), tree, keys);
            if !terms.has_relay {
                (
                    LaneStageView::Over,
                    LaneActionView::Fail(
                        "this ticket names no relay, and a tab has no other way to reach a seeder"@,
                    ),
                )
            } else if launches.len() == 0 {
                (
                    LaneStageView::Over,
                    LaneActionView::Fail(
                        origin_and(
                            terms,
                            " and no vouching card carries a dialable endpoint"@,
                        ),
                    ),
                )
            } else {
                (LaneStageView::Race(tree), LaneActionView::Race(launches))
            }
        },
    }
}

/// What an event leads to.
pub open spec fn lane_after(terms: LaneTerms, stage: LaneStageView, event: LaneEvent) -> (
    LaneStageView,
    LaneActionView,
) {
    match (stage, event) {
        (LaneStageView::Join, LaneEvent::Joined) => (
            LaneStageView::Rearm,
            LaneActionView::Rearm,
        ),
        (LaneStageView::Join, LaneEvent::JoinFailed(why)) => (
            LaneStageView::Over,
            LaneActionView::Fail(
                origin_and(
                    terms,
                    " and the share's mesh could not be joined ("@ + why@ + ")"@,
                ),
            ),
        ),
        (LaneStageView::Rearm, LaneEvent::Rearmed) => (
            LaneStageView::Redial,
            LaneActionView::Redial,
        ),
        (LaneStageView::Redial, LaneEvent::Redialled(found)) => if found {
            (LaneStageView::Over, LaneActionView::UseKnown)
        } else {
            (LaneStageView::Poll, LaneActionView::Poll(0))
        },
        (LaneStageView::Poll, LaneEvent::Cards(cards, keys, elapsed_ms)) => polled(
            terms,
            card_views(cards@),
            keys@,
            elapsed_ms,
        ),
        (LaneStageView::Race(tree), LaneEvent::Won(endpoint)) => (
            LaneStageView::Over,
            LaneActionView::Adopt(endpoint@, tree),
        ),
        (LaneStageView::Race(_), LaneEvent::AllFailed(whys)) => (
            LaneStageView::Over,
            LaneActionView::Fail(
                origin_and(
                    terms,
                    " and no seeder could serve the share: "@ + listed(texts(whys@)),
                ),
            ),
        ),
        (LaneStageView::Race(_), LaneEvent::DeadlineExpired(whys)) => (
            LaneStageView::Over,
            LaneActionView::Fail(
                origin_and(
                    terms,
                    " and no seeder answered inside 35 s: "@ + listed(texts(whys@)),
                ),
            ),
        ),
        _ => (stage, LaneActionView::Nothing),
    }
}

fn origin_failure(terms: &LaneTerms, rest: &str) -> (text: String)
    ensures
        text@ == origin_and(*terms, rest@),
{
    let mut text = "the origin is unreachable (".to_owned();
    text.push_str(terms.origin.as_str());
    text.push_str(")");
    text.push_str(rest);
    assert(text@ =~= origin_and(*terms, rest@));
    text
}

fn poll_cards(terms: &LaneTerms, cards: &[PeerCard], keys: &[u64], elapsed_ms: u64) -> (out: (
    LaneStage,
    LaneAction,
))
    ensures
        (out.0@, out.1@) == polled(*terms, card_views(cards@), keys@, elapsed_ms),
{
    let vouching = vouchers(cards, terms.own.as_str());
    let tree = match majority(vouching.as_slice()) {
        None => {
            if elapsed_ms <= SEEDER_CARDS_DEADLINE_MS {
                return (LaneStage::Poll, LaneAction::Poll(SEEDER_CARDS_POLL_MS));
            }
            let mut detail = origin_failure(
                terms,
                " and no peer on the mesh vouches for the share",
            );
            if terms.unchecked_password {
                detail.push_str(" — the password may also be wrong");
                return (LaneStage::Over, LaneAction::Fail(unauthorized(detail.as_str())));
            }
            return (LaneStage::Over, LaneAction::Fail(detail));
        },
        Some(tree) => tree,
    };
    if !terms.has_relay {
        return (
            LaneStage::Over,
            LaneAction::Fail(
                "this ticket names no relay, and a tab has no other way to reach a seeder".to_owned(),
            ),
        );
    }
    let list = candidates(vouching.as_slice(), tree.as_str(), keys);
    let launches = plan_race(list.as_slice(), tree.as_str());
    assert(launch_views(launches@).len() == launches@.len());
    if launches.len() == 0 {
        return (
            LaneStage::Over,
            LaneAction::Fail(
                origin_failure(terms, " and no vouching card carries a dialable endpoint"),
            ),
        );
    }
    (LaneStage::Race(tree), LaneAction::Race(launches))
}

/// Takes one event of the lane. It starts by joining the share's mesh.
pub fn connect_via_seeder(terms: &LaneTerms, stage: LaneStage, event: LaneEvent) -> (out: (
    LaneStage,
    LaneAction,
))
    ensures
        (out.0@, out.1@) == lane_after(*terms, stage@, event),
{
    match (stage, event) {
        (LaneStage::Join, LaneEvent::Joined) => (LaneStage::Rearm, LaneAction::Rearm),
        (LaneStage::Join, LaneEvent::JoinFailed(why)) => {
            let mut rest = " and the share's mesh could not be joined (".to_owned();
            rest.push_str(why.as_str());
            rest.push_str(")");
            assert(rest@ =~= " and the share's mesh could not be joined ("@ + why@ + ")"@);
            (LaneStage::Over, LaneAction::Fail(origin_failure(terms, rest.as_str())))
        },
        (LaneStage::Rearm, LaneEvent::Rearmed) => (LaneStage::Redial, LaneAction::Redial),
        (LaneStage::Redial, LaneEvent::Redialled(found)) => {
            if found {
                (LaneStage::Over, LaneAction::UseKnown)
            } else {
                (LaneStage::Poll, LaneAction::Poll(0))
            }
        },
        (LaneStage::Poll, LaneEvent::Cards(cards, keys, elapsed_ms)) => poll_cards(
            terms,
            cards.as_slice(),
            keys.as_slice(),
            elapsed_ms,
        ),
        (LaneStage::Race(tree), LaneEvent::Won(endpoint)) => (
            LaneStage::Over,
            LaneAction::Adopt(endpoint, tree),
        ),
        (LaneStage::Race(_), LaneEvent::AllFailed(whys)) => {
            let mut rest = " and no seeder could serve the share: ".to_owned();
            rest.push_str(list_texts(whys.as_slice()).as_str());
            assert(rest@ =~= " and no seeder could serve the share: "@ + listed(texts(whys@)));
            (LaneStage::Over, LaneAction::Fail(origin_failure(terms, rest.as_str())))
        },
        (LaneStage::Race(_), LaneEvent::DeadlineExpired(whys)) => {
            let mut rest = " and no seeder answered inside 35 s: ".to_owned();
            rest.push_str(list_texts(whys.as_slice()).as_str());
            assert(rest@ =~= " and no seeder answered inside 35 s: "@ + listed(texts(whys@)));
            (LaneStage::Over, LaneAction::Fail(origin_failure(terms, rest.as_str())))
        },
        (stage, _) => (stage, LaneAction::Nothing),
    }
}

/// Cards are not waited for without end, and not given up on early: while
/// nobody vouches the lane looks again until the deadline has passed.
pub proof fn law_cards_are_waited_for(
    terms: LaneTerms,
    cards: Seq<CardView>,
    keys: Seq<u64>,
    elapsed_ms: u64,
)
    requires
        vouching(cards, terms.own@).len() == 0,
    ensures
        polled(terms, cards, keys, elapsed_ms).1 is Poll <==> elapsed_ms
            <= SEEDER_CARDS_DEADLINE_MS,
        polled(terms, cards, keys, elapsed_ms).1 is Fail <==> elapsed_ms > SEEDER_CARDS_DEADLINE_MS,
{
}

/// Before anybody else is asked, what this peer has stored is served again and
/// the seeders it knows are dialled.
pub proof fn law_own_storage_comes_first(terms: LaneTerms, event: LaneEvent)
    ensures
        lane_after(terms, LaneStageView::Join, event).0 is Join || lane_after(
            terms,
            LaneStageView::Join,
            event,
        ).0 is Rearm || lane_after(terms, LaneStageView::Join, event).0 is Over,
        lane_after(terms, LaneStageView::Rearm, event).0 is Rearm || lane_after(
            terms,
            LaneStageView::Rearm,
            event,
        ).0 is Redial,
        lane_after(terms, LaneStageView::Redial, event).1 is Poll ==> event
            == LaneEvent::Redialled(false),
{
}

/// A seeder that was vetted.
#[derive(Debug, Clone, PartialEq, Eq)]
pub struct Adopted {
    /// The path the share is read over.
    pub data_path: String,
    /// Why the share is not read from its origin.
    pub reason: String,
    /// The tree every later listing is held to.
    pub pinned_tree: String,
    /// Whether the connection lives on the endpoint with a relay, and not on
    /// the data channel's.
    pub on_relay_endpoint: bool,
}

pub struct AdoptedView {
    pub data_path: Seq<char>,
    pub reason: Seq<char>,
    pub pinned_tree: Seq<char>,
    pub on_relay_endpoint: bool,
}

impl View for Adopted {
    type V = AdoptedView;

    open spec fn view(&self) -> AdoptedView {
        AdoptedView {
            data_path: self.data_path@,
            reason: self.reason@,
            pinned_tree: self.pinned_tree@,
            on_relay_endpoint: self.on_relay_endpoint,
        }
    }
}

/// How reading from a seeder is explained.
pub open spec fn adopted_reason(origin: Seq<char>, endpoint: Seq<char>, demoted: bool) -> Seq<
    char,
> {
    "origin unreachable ("@ + origin + "); reading from seeder "@ + short_name(endpoint) + (
    if demoted {
        " over the relay (data channel failed the bulk probe)"@
    } else {
        Seq::empty()
    })
}

/// Takes up a vetted seeder. The path is the one the connection settled on; a
/// seeder that was demoted, or a connection that settled on none, is on the
/// relay.
#[must_use]
pub fn adopt_vetted(
    endpoint: &str,
    demoted: bool,
    settled: Option<String>,
    tree: &str,
    origin: &str,
) -> (out: Adopted)
    ensures
        out@ == (AdoptedView {
            data_path: match opt_text(settled) {
                Some(label) if !demoted => label,
                _ => "relay"@,
            },
            reason: adopted_reason(origin@, endpoint@, demoted),
            pinned_tree: tree@,
            on_relay_endpoint: demoted,
        }),
{
    let data_path = match settled {
        Some(label) => {
            if demoted {
                "relay".to_owned()
            } else {
                label
            }
        },
        None => "relay".to_owned(),
    };
    let mut reason = "origin unreachable (".to_owned();
    reason.push_str(origin);
    reason.push_str("); reading from seeder ");
    reason.push_str(short_of(endpoint).as_str());
    if demoted {
        reason.push_str(" over the relay (data channel failed the bulk probe)");
    }
    assert(reason@ =~= adopted_reason(origin@, endpoint@, demoted));
    Adopted { data_path, reason, pinned_tree: tree.to_owned(), on_relay_endpoint: demoted }
}

/// The records after the seeders of an earlier connect were dialled: the one
/// that answered stands first; where none did, all that were dialled are
/// forgotten.
pub open spec fn records_after(
    records: Seq<KnownView>,
    dialled: Seq<Seq<char>>,
    won: Option<KnownView>,
) -> Seq<KnownView> {
    match won {
        Some(entry) => capped(seq![entry] + others(records, seq![entry.endpoint])),
        None => others(records, dialled),
    }
}

pub open spec fn opt_known(entry: Option<KnownSeeder>) -> Option<KnownView> {
    match entry {
        Some(e) => Some(e@),
        None => None,
    }
}

/// The records to keep after a redial.
#[must_use]
pub fn after_redial(records: Vec<KnownSeeder>, dialled: &[Launch], won: Option<KnownSeeder>) -> (out:
    Vec<KnownSeeder>)
    ensures
        known_views(out@) == records_after(
            known_views(records@),
            dialled_endpoints(launch_views(dialled@)),
            opt_known(won),
        ),
{
    match won {
        Some(entry) => upsert_known_seeder(records, entry),
        None => {
            let ghost all = dialled_endpoints(launch_views(dialled@));
            let mut names: Vec<String> = Vec::new();
            let mut i: usize = 0;
            while i < dialled.len()
                invariant
                    0 <= i <= dialled@.len(),
                    all == dialled_endpoints(launch_views(dialled@)),
                    names@.len() == i,
                    forall|k: int| 0 <= k < i ==> (#[trigger] names@[k])@ == all[k],
                decreases dialled@.len() - i,
            {
                names.push(dialled[i].endpoint.clone());
                i += 1;
            }
            assert(texts(names@) =~= all);
            forget_known_seeders(records, names.as_slice())
        },
    }
}

/// The endpoints of dials.
pub open spec fn dialled_endpoints(launches: Seq<LaunchView>) -> Seq<Seq<char>> {
    Seq::new(launches.len(), |i: int| launches[i].endpoint)
}

/// What a peer publishes when it serves again what it has stored.
#[derive(Debug, Clone, PartialEq, Eq)]
pub struct Rearmed {
    pub tree: String,
    pub serving: Option<String>,
}

/// Whether a peer can serve again what it has stored, and what it publishes
/// then: it serves nothing yet, and it holds something of the stored listing.
/// `manifest` is the listing's bytes and `slots` how many slots it has.
#[must_use]
pub fn rearm(armed: bool, manifest: &[u8], slots: usize, held: &HeldSet) -> (out: Option<Rearmed>)
    ensures
        match out {
            None => armed || held@.len() == 0,
            Some(r) => !armed && held@.len() > 0 && r.tree@ == fingerprint(manifest@) && opt_text(
                r.serving,
            ) == serving_field(in_order(held@), slots as int),
        },
{
    if armed || held.len() == 0 {
        return None;
    }
    Some(
        Rearmed {
            tree: manifest_fingerprint(manifest),
            serving: encode_serving(held.slots().as_slice(), slots),
        },
    )
}

/// The relays a seeder can be dialled at: the ladder the ticket names.
pub open spec fn ladder_of(relay: RelayView, pinned: Seq<Seq<char>>) -> Seq<Seq<char>> {
    match relay {
        RelayView::Disabled => Seq::empty(),
        RelayView::Pinned => pinned,
        RelayView::Custom(ladder) => ladder,
    }
}

/// The relays a share is reached over. Every peer of it homes on the ladder the
/// ticket names; the pinned one is known to everybody.
#[must_use]
pub fn seeder_relays(relay: &RelayChoice, pinned: Vec<RelayUrl>) -> (out: Vec<RelayUrl>)
    ensures
        url_views(out@) == ladder_of(relay@, url_views(pinned@)),
{
    match relay {
        RelayChoice::Disabled => {
            let none: Vec<RelayUrl> = Vec::new();
            assert(url_views(none@) =~= Seq::empty());
            none
        },
        RelayChoice::Pinned => pinned,
        RelayChoice::Custom(ladder) => {
            let mut out: Vec<RelayUrl> = Vec::new();
            let mut i: usize = 0;
            while i < ladder.len()
                invariant
                    0 <= i <= ladder@.len(),
                    out@.len() == i,
                    forall|k: int| 0 <= k < i ==> (#[trigger] out@[k])@ == ladder@[k]@,
                decreases ladder@.len() - i,
            {
                out.push(ladder[i].copy());
                i += 1;
            }
            assert(url_views(out@) =~= url_views(ladder@));
            out
        },
    }
}

/// A race ends with the first success, and names who won it. The deadline ends it
/// whatever runs. One that starts with nobody has failed.
pub proof fn law_a_race_ends_for_a_reason(race: AttemptsView, which: usize, why: String)
    ensures
        raced(race, AttemptEvent::Won(which)) == (race, Some(RaceOutcome::Winner(which))),
        raced(race, AttemptEvent::Deadline) == (race, Some(RaceOutcome::DeadlineExpired)),
        raced(race, AttemptEvent::Refused(why)).0.refusals == race.refusals.push(why@),
        race.pending > 1 ==> raced(race, AttemptEvent::Refused(why)).1 is None,
        race.pending == 1 ==> raced(race, AttemptEvent::Refused(why)).1 == Some(
            RaceOutcome::AllFailed,
        ),
        exhausted(race.pending) is None <==> race.pending > 0,
        exhausted(0) == Some(RaceOutcome::AllFailed),
{
}

/// A lane joins, serves what it has, dials whom it knows, and looks for cards. It
/// uses a known seeder where one was found. The winner of a race is adopted, held
/// to the tree the race was for.
pub proof fn law_a_lane_goes_forward(terms: LaneTerms, tree: Seq<char>, endpoint: String)
    ensures
        lane_after(terms, LaneStageView::Join, LaneEvent::Joined) == (
            LaneStageView::Rearm,
            LaneActionView::Rearm,
        ),
        lane_after(terms, LaneStageView::Rearm, LaneEvent::Rearmed) == (
            LaneStageView::Redial,
            LaneActionView::Redial,
        ),
        lane_after(terms, LaneStageView::Redial, LaneEvent::Redialled(true)) == (
            LaneStageView::Over,
            LaneActionView::UseKnown,
        ),
        lane_after(terms, LaneStageView::Redial, LaneEvent::Redialled(false)) == (
            LaneStageView::Poll,
            LaneActionView::Poll(0),
        ),
        lane_after(terms, LaneStageView::Race(tree), LaneEvent::Won(endpoint)) == (
            LaneStageView::Over,
            LaneActionView::Adopt(endpoint@, tree),
        ),
        forall|event: LaneEvent| #[trigger]
            lane_after(terms, LaneStageView::Over, event) == (
                LaneStageView::Over,
                LaneActionView::Nothing,
            ),
{
}

/// Every failure of a lane says first why the origin could not be reached, and then
/// what else went wrong; of a race, everything that did.
pub proof fn law_a_lane_fails_with_what_went_wrong(
    terms: LaneTerms,
    tree: Seq<char>,
    why: String,
    whys: Vec<String>,
)
    ensures
        lane_after(terms, LaneStageView::Join, LaneEvent::JoinFailed(why)) == (
            LaneStageView::Over,
            LaneActionView::Fail(
                "the origin is unreachable ("@ + terms.origin@ + ")"@ + (
                " and the share's mesh could not be joined ("@ + why@ + ")"@),
            ),
        ),
        lane_after(terms, LaneStageView::Race(tree), LaneEvent::AllFailed(whys)) == (
            LaneStageView::Over,
            LaneActionView::Fail(
                "the origin is unreachable ("@ + terms.origin@ + ")"@ + (
                " and no seeder could serve the share: "@ + listed(texts(whys@))),
            ),
        ),
        lane_after(terms, LaneStageView::Race(tree), LaneEvent::DeadlineExpired(whys)) == (
            LaneStageView::Over,
            LaneActionView::Fail(
                "the origin is unreachable ("@ + terms.origin@ + ")"@ + (
                " and no seeder answered inside 35 s: "@ + listed(texts(whys@))),
            ),
        ),
{
}

/// Texts are listed one after the other, with a separator before each but the
/// first.
pub proof fn law_texts_are_listed_in_order(list: Seq<Seq<char>>)
    requires
        list.len() > 0,
    ensures
        listed(list) == list[0] + list.drop_first().map_values(
            |text: Seq<char>| "; "@ + text,
        ).flatten(),
    decreases list.len(),
{
    let led = |text: Seq<char>| "; "@ + text;
    if list.len() == 1 {
        assert(list.drop_first().map_values(led) =~= Seq::empty());
        assert(listed(list) =~= list[0] + Seq::<Seq<char>>::empty().flatten());
    } else {
        let front = list.drop_last();
        law_texts_are_listed_in_order(front);
        let short = front.drop_first().map_values(led);
        assert(list.drop_first().map_values(led) =~= short.push(led(list.last())));
        short.lemma_flatten_push(led(list.last()));
        assert(listed(list) =~= list[0] + (short.flatten() + led(list.last())));
    }
}

/// A race is run among those who vouch for the tree that most of them name. Each
/// that is dialled is one of them and not this peer itself. The first six in the
/// order of candidates are dialled, each that can be, two seconds apart. Without a
/// relay to dial over, and where none can be dialled, the lane fails.
pub proof fn law_a_race_is_among_those_who_vouch(
    terms: LaneTerms,
    cards: Seq<CardView>,
    keys: Seq<u64>,
    elapsed_ms: u64,
    tree: Seq<char>,
)
    requires
        majority_tree(
            cards.filter(
                |card: CardView|
                    card.tree is Some && card.serving is Some && card.endpoint != terms.own@,
            ),
        ) == Some(tree),
    ensures
        ({
            let step = polled(terms, cards, keys, elapsed_ms);
            let vouchers = cards.filter(
                |card: CardView|
                    card.tree is Some && card.serving is Some && card.endpoint != terms.own@,
            );
            let order = candidate_cards(vouchers, tree, keys);
            let n: nat = if order.len() < 6 {
                order.len()
            } else {
                6
            };
            let launches = Seq::new(n, |i: int| i).filter(
                |i: int| crate::candidates::endpoint_key(order[i].endpoint) is Some,
            ).map_values(
                |i: int|
                    LaunchView {
                        endpoint: order[i].endpoint,
                        id: crate::candidates::endpoint_key(order[i].endpoint)->Some_0,
                        tree,
                        delay_ms: 2_000 * i,
                    },
            );
            &&& order.to_multiset() == vouchers.filter(
                |card: CardView| card.tree == Some(tree),
            ).to_multiset()
            &&& !terms.has_relay ==> step.0 is Over && step.1 is Fail
            &&& terms.has_relay && launches.len() == 0 ==> step.0 is Over && step.1 is Fail
            &&& terms.has_relay && launches.len() > 0 ==> step == (
                LaneStageView::Race(tree),
                LaneActionView::Race(launches),
            )
        }),
{
    crate::candidates::law_vouchers_name_a_tree_and_serve_it(cards, terms.own@);
    let vouchers = vouching(cards, terms.own@);
    let order = candidate_cards(vouchers, tree, keys);
    crate::candidates::law_candidates_name_the_tree_natives_first(vouchers, tree, keys, 0, 0);
    let list = width(endpoints(order));
    let ids = keys_of(list);
    crate::candidates::law_a_race_takes_the_first_six(endpoints(order));
    crate::candidates::law_a_race_launches_every_endpoint(list, ids, tree);
    let n: nat = if order.len() < 6 {
        order.len()
    } else {
        6
    };
    assert(list.len() == n);
    let all = Seq::new(n, |i: int| i);
    assert(Seq::new(list.len(), |i: int| i) =~= all);
    let dialable = |i: int| crate::candidates::endpoint_key(order[i].endpoint) is Some;
    let launch = |i: int|
        LaunchView {
            endpoint: order[i].endpoint,
            id: crate::candidates::endpoint_key(order[i].endpoint)->Some_0,
            tree,
            delay_ms: 2_000 * i,
        };
    let given = |i: int|
        LaunchView { endpoint: list[i], id: ids[i]->Some_0, tree, delay_ms: 2_000 * i };
    lemma_filter_same(all, |i: int| ids[i] is Some, dialable);
    let picked = all.filter(dialable);
    assert forall|j: int| 0 <= j < picked.len() implies given(#[trigger] picked[j]) == launch(
        picked[j],
    ) by {
        assert(picked.contains(picked[j]));
        all.lemma_filter_contains_rev(dialable, picked[j]);
        let k = choose|k: int| 0 <= k < all.len() && all[k] == picked[j];
        assert(0 <= picked[j] < n);
        assert(list[picked[j]] == order[picked[j]].endpoint);
    }
    assert(picked.map_values(given) =~= picked.map_values(launch));
    assert(dials(vouchers, tree, keys) == picked.map_values(launch));
}

proof fn lemma_filter_same(list: Seq<int>, p: spec_fn(int) -> bool, q: spec_fn(int) -> bool)
    requires
        forall|j: int| 0 <= j < list.len() ==> p(#[trigger] list[j]) == q(list[j]),
    ensures
        list.filter(p) == list.filter(q),
    decreases list.len(),
{
    reveal(Seq::filter);
    if list.len() > 0 {
        let front = list.drop_last();
        assert forall|j: int| 0 <= j < front.len() implies p(#[trigger] front[j]) == q(
            front[j],
        ) by {
            assert(front[j] == list[j]);
        }
        lemma_filter_same(front, p, q);
        assert(p(list[list.len() - 1]) == q(list[list.len() - 1]));
    }
}

/// After a redial the seeder that answered stands first, once, before those that
/// are kept of the others. Where none answered, all that were dialled are gone.
pub proof fn law_a_redial_settles_the_records(
    records: Seq<KnownView>,
    dialled: Seq<Seq<char>>,
    won: KnownView,
)
    ensures
        ({
            let rest = records.filter(|entry: KnownView| entry.endpoint != won.endpoint);
            let out = records_after(records, dialled, Some(won));
            &&& out.len() > 0
            &&& out[0] == won
            &&& out.drop_first() == rest.subrange(
                0,
                if rest.len() < 3 {
                    rest.len() as int
                } else {
                    3
                },
            )
        }),
        records_after(records, dialled, None) == records.filter(
            |entry: KnownView| !dialled.contains(entry.endpoint),
        ),
{
    crate::known_seeders::law_what_is_not_forgotten_keeps_its_order(records, dialled);
    let one = seq![won.endpoint];
    crate::known_seeders::law_what_is_not_forgotten_keeps_its_order(records, one);
    let other = |entry: KnownView| entry.endpoint != won.endpoint;
    let unnamed = |entry: KnownView| !one.contains(entry.endpoint);
    assert(one[0] == won.endpoint);
    assert(unnamed =~= other);
    let rest = records.filter(other);
    let out = records_after(records, dialled, Some(won));
    crate::known_seeders::law_a_roster_is_its_fresh_records(seq![won] + rest, 0);
    let n: int = if rest.len() < 3 {
        rest.len() as int
    } else {
        3
    };
    assert(out.drop_first() =~= rest.subrange(0, n));
}

/// Reading from a seeder is explained by why the origin is not read from, and by
/// the seeder's short name.
pub proof fn law_an_adoption_names_the_seeder(origin: Seq<char>, endpoint: Seq<char>)
    ensures
        adopted_reason(origin, endpoint, false) == "origin unreachable ("@ + origin
            + "); reading from seeder "@ + short_name(endpoint),
        adopted_reason(origin, endpoint, true) == adopted_reason(origin, endpoint, false)
            + " over the relay (data channel failed the bulk probe)"@,
{
    assert(adopted_reason(origin, endpoint, false) =~= "origin unreachable ("@ + origin
        + "); reading from seeder "@ + short_name(endpoint));
    assert(adopted_reason(origin, endpoint, true) =~= adopted_reason(origin, endpoint, false)
        + " over the relay (data channel failed the bulk probe)"@);
}

/// A seeder is dialled over the ladder its ticket names, over the pinned one where
/// the ticket says so, and over none where relays are off.
pub proof fn law_a_seeder_is_dialled_over_its_ladder(
    ladder: Seq<Seq<char>>,
    pinned: Seq<Seq<char>>,
)
    ensures
        ladder_of(RelayView::Disabled, pinned).len() == 0,
        ladder_of(RelayView::Pinned, pinned) == pinned,
        ladder_of(RelayView::Custom(ladder), pinned) == ladder,
{
}

/// Where nobody vouches for the share by the deadline, the lane fails and says so;
/// where a password was given that nothing could check, also that it may be wrong.
pub proof fn law_nobody_vouching_is_told(
    terms: LaneTerms,
    cards: Seq<CardView>,
    keys: Seq<u64>,
    elapsed_ms: u64,
)
    requires
        forall|i: int|
            0 <= i < cards.len() ==> (#[trigger] cards[i]).tree is None || cards[i].serving is None
                || cards[i].endpoint == terms.own@,
    ensures
        ({
            let step = polled(terms, cards, keys, elapsed_ms);
            let detail = "the origin is unreachable ("@ + terms.origin@ + ")"@
                + " and no peer on the mesh vouches for the share"@;
            &&& elapsed_ms <= 12_000 ==> step == (LaneStageView::Poll, LaneActionView::Poll(500))
            &&& elapsed_ms > 12_000 && !terms.unchecked_password ==> step == (
                LaneStageView::Over,
                LaneActionView::Fail(detail),
            )
            &&& elapsed_ms > 12_000 && terms.unchecked_password ==> step == (
                LaneStageView::Over,
                LaneActionView::Fail(
                    "unauthorized:"@ + " "@ + (detail + " — the password may also be wrong"@),
                ),
            )
        }),
{
    let vouchers = vouching(cards, terms.own@);
    crate::candidates::law_vouchers_name_a_tree_and_serve_it(cards, terms.own@);
    if vouchers.len() > 0 {
        let good = |card: CardView|
            card.tree is Some && card.serving is Some && card.endpoint != terms.own@;
        assert(vouchers == cards.filter(good));
        assert(vouchers.contains(vouchers[0]));
        cards.lemma_filter_contains_rev(good, vouchers[0]);
        cards.lemma_filter_pred(good, 0);
        let i = choose|i: int| 0 <= i < cards.len() && cards[i] == vouchers[0];
        assert(good(cards[i]));
    }
}

} // verus!
