//! How long to wait for a share's origin.
use crate::decimal::{dec, push_dec};
use crate::text::text_of;
use vstd::prelude::*;

verus! {

/// How long an origin dial may run where a fallback exists, in milliseconds.
pub const ORIGIN_DIAL_CAP_MS: u64 = 30_000;

/// How long an honest cold dial to a live origin was measured to take.
pub const MEASURED_COLD_ORIGIN_DIAL_MS: u64 = 20_000;

/// The least cap a caller can ask for.
pub const MIN_ORIGIN_CAP_MS: u64 = 1_000;

/// How long the origin is dialled alone before the seeder lane joins in.
pub const SEEDER_RACE_HEAD_START_MS: u64 = 3_000;

/// How long an origin dial must have run before it may be conceded.
pub const ORIGIN_CONCEDE_FLOOR_MS: u64 = 5_000;

/// The cap of a connect whose caller named none: the patient one.
#[must_use]
pub fn default_origin_cap_ms() -> (cap: u64)
    ensures
        cap == ORIGIN_DIAL_CAP_MS,
        cap >= MEASURED_COLD_ORIGIN_DIAL_MS,
{
    ORIGIN_DIAL_CAP_MS
}

/// The longest cap that can be asked for, in milliseconds.
pub const MAX_ORIGIN_CAP_MS: u64 = 2_147_483_647;

/// The cap of an origin dial whose caller asked for one, or for none: no
/// shorter than the least that gives a dial a chance.
pub open spec fn cap_of(asked: Option<u64>) -> u64 {
    match asked {
        None => ORIGIN_DIAL_CAP_MS,
        Some(ms) => if ms < MIN_ORIGIN_CAP_MS {
            MIN_ORIGIN_CAP_MS
        } else if ms > MAX_ORIGIN_CAP_MS {
            MAX_ORIGIN_CAP_MS
        } else {
            ms
        },
    }
}

/// The cap of an origin dial.
#[must_use]
pub fn origin_cap_ms(asked: Option<u64>) -> (cap: u64)
    ensures
        cap == cap_of(asked),
{
    match asked {
        None => default_origin_cap_ms(),
        Some(ms) => {
            if ms < MIN_ORIGIN_CAP_MS {
                MIN_ORIGIN_CAP_MS
            } else if ms > MAX_ORIGIN_CAP_MS {
                MAX_ORIGIN_CAP_MS
            } else {
                ms
            }
        },
    }
}

/// Whether an origin dial is conceded: a peer has answered a dial, and the dial
/// to the origin has run for the floor. A peer's card alone never is reason
/// enough, because cards outlive their peers.
#[must_use]
pub fn concede_due(proven: bool, elapsed_ms: u64, floor_ms: u64) -> (due: bool)
    ensures
        due == (proven && elapsed_ms >= floor_ms),
{
    proven && elapsed_ms >= floor_ms
}

/// The seeder lane's side of an origin dial: whether a peer has answered, and
/// the floor.
#[derive(Debug, Clone, Copy, PartialEq, Eq)]
pub struct Concession {
    pub proven: bool,
    pub floor_ms: u64,
}

/// Why an origin dial was given up.
#[derive(Debug, Clone, Copy, PartialEq, Eq, Structural)]
pub enum GivenUp {
    /// The cap, in milliseconds, has passed.
    TimedOut(u64),
    /// The mesh has replaced the origin.
    Conceded,
}

impl GivenUp {
    pub open spec fn text(self) -> Seq<char> {
        match self {
            GivenUp::TimedOut(cap_ms) => "origin dial timed out after "@ + dec(
                (cap_ms / 1000) as nat,
            ) + " s"@,
            GivenUp::Conceded =>
                "origin dial conceded: a peer on the mesh is already serving the share"@,
        }
    }

    /// What happened, in words.
    pub fn message(self) -> (text: String)
        ensures
            text@ == self.text(),
    {
        match self {
            GivenUp::TimedOut(cap_ms) => {
                let mut digits: Vec<char> = Vec::new();
                push_dec(&mut digits, cap_ms / 1000);
                assert(digits@ =~= dec((cap_ms / 1000) as nat));
                let mut text = String::new();
                text.push_str("origin dial timed out after ");
                text.push_str(text_of(digits.as_slice()).as_str());
                text.push_str(" s");
                assert(text@ =~= self.text());
                text
            },
            GivenUp::Conceded => "origin dial conceded: a peer on the mesh is already serving the share".to_owned(),
        }
    }
}

/// Whether a dial that has not answered is given up.
pub open spec fn given_up(elapsed_ms: u64, cap_ms: u64, concession: Option<Concession>) -> Option<
    GivenUp,
> {
    if elapsed_ms >= cap_ms {
        Some(GivenUp::TimedOut(cap_ms))
    } else if concession matches Some(c) && c.proven && elapsed_ms >= c.floor_ms {
        Some(GivenUp::Conceded)
    } else {
        None
    }
}

/// What has become of an origin dial: its own answer where it has one, and
/// otherwise whether it is given up. `None` says to wait on.
pub fn capped_origin_dial<W>(
    answer: Option<Result<W, String>>,
    elapsed_ms: u64,
    cap_ms: u64,
    concession: Option<Concession>,
) -> (out: Option<Result<W, String>>)
    ensures
        match answer {
            Some(result) => out == Some(result),
            None => match given_up(elapsed_ms, cap_ms, concession) {
                None => out is None,
                Some(why) => out matches Some(Err(text)) && text@ == why.text(),
            },
        },
{
    match answer {
        Some(result) => Some(result),
        None => {
            if elapsed_ms >= cap_ms {
                return Some(Err(GivenUp::TimedOut(cap_ms).message()));
            }
            match concession {
                None => None,
                Some(concession) => {
                    if concede_due(concession.proven, elapsed_ms, concession.floor_ms) {
                        Some(Err(GivenUp::Conceded.message()))
                    } else {
                        None
                    }
                },
            }
        },
    }
}

/// Without a peer that answered, nothing but the cap ends a dial.
pub proof fn law_cards_alone_never_concede(elapsed_ms: u64, cap_ms: u64, floor_ms: u64)
    ensures
        given_up(elapsed_ms, cap_ms, Some(Concession { proven: false, floor_ms })) == given_up(
            elapsed_ms,
            cap_ms,
            None,
        ),
        given_up(elapsed_ms, cap_ms, None) is Some <==> elapsed_ms >= cap_ms,
{
}

/// A dial that the patient cap governs outlasts an honest cold dial.
pub proof fn law_the_patient_cap_outlasts_a_cold_dial(elapsed_ms: u64)
    requires
        elapsed_ms <= MEASURED_COLD_ORIGIN_DIAL_MS,
    ensures
        given_up(elapsed_ms, ORIGIN_DIAL_CAP_MS, None) is None,
{
}

/// How the two lanes of a connect have ended so far.
#[derive(Debug, Clone, PartialEq, Eq)]
pub enum Race {
    /// Neither has.
    Open,
    /// The origin failed, for this reason; the seeder lane is warm.
    OriginFailed(String),
    /// The seeder lane failed, for this reason; the origin may still answer.
    SeederFailed(String),
    /// Over.
    Over,
}

/// What ended.
#[derive(Debug, Clone, PartialEq, Eq)]
pub enum LaneEnd {
    Origin(Option<String>),
    Seeder(Option<String>),
}

/// What a connect comes to.
#[derive(Debug, Clone, PartialEq, Eq)]
pub enum RaceStep {
    /// Wait for the other lane.
    Wait,
    /// The origin's client.
    UseOrigin,
    /// The seeder lane's client.
    UseSeeder,
    /// Both failed.
    Fail(String),
}

pub enum RaceStepView {
    Wait,
    UseOrigin,
    UseSeeder,
    Fail(Seq<char>),
}

impl View for RaceStep {
    type V = RaceStepView;

    open spec fn view(&self) -> RaceStepView {
        match *self {
            RaceStep::Wait => RaceStepView::Wait,
            RaceStep::UseOrigin => RaceStepView::UseOrigin,
            RaceStep::UseSeeder => RaceStepView::UseSeeder,
            RaceStep::Fail(text) => RaceStepView::Fail(text@),
        }
    }
}

/// A failure with the other lane's behind it.
pub open spec fn with_other(own: Seq<char>, name: Seq<char>, other: Seq<char>) -> Seq<char> {
    own + " ("@ + name + ": "@ + other + ")"@
}

fn joined_failure(own: &str, name: &str, other: &str) -> (text: String)
    ensures
        text@ == with_other(own@, name@, other@),
{
    let mut text = own.to_owned();
    text.push_str(" (");
    text.push_str(name);
    text.push_str(": ");
    text.push_str(other);
    text.push_str(")");
    assert(text@ =~= with_other(own@, name@, other@));
    text
}

/// What the end of a lane leads to. `None` in an end says that the lane has a
/// client, a text says why it has none. The first lane with a client wins; a
/// lane that failed leaves the other one to decide.
pub open spec fn race_outcome(race: Race, end: LaneEnd) -> RaceStepView {
    match (race, end) {
        (Race::Over, _) => RaceStepView::Wait,
        (_, LaneEnd::Origin(None)) => RaceStepView::UseOrigin,
        (_, LaneEnd::Seeder(None)) => RaceStepView::UseSeeder,
        (Race::SeederFailed(seeder), LaneEnd::Origin(Some(origin))) => RaceStepView::Fail(
            with_other(origin@, "seeder lane"@, seeder@),
        ),
        (Race::OriginFailed(origin), LaneEnd::Seeder(Some(seeder))) => RaceStepView::Fail(
            with_other(seeder@, "origin"@, origin@),
        ),
        _ => RaceStepView::Wait,
    }
}

/// Where the race stands after the end of a lane.
pub open spec fn race_after(race: Race, end: LaneEnd) -> Race {
    if race_outcome(race, end) is Wait {
        match (race, end) {
            (Race::Open, LaneEnd::Origin(Some(text))) => Race::OriginFailed(text),
            (Race::Open, LaneEnd::Seeder(Some(text))) => Race::SeederFailed(text),
            _ => race,
        }
    } else {
        Race::Over
    }
}

/// Takes the end of a lane.
pub fn race_step(race: Race, end: LaneEnd) -> (out: (Race, RaceStep))
    ensures
        out.0 == race_after(race, end),
        out.1@ == race_outcome(race, end),
{
    match (race, end) {
        (Race::Over, _) => (Race::Over, RaceStep::Wait),
        (_, LaneEnd::Origin(None)) => (Race::Over, RaceStep::UseOrigin),
        (_, LaneEnd::Seeder(None)) => (Race::Over, RaceStep::UseSeeder),
        (Race::SeederFailed(seeder), LaneEnd::Origin(Some(origin))) => (
            Race::Over,
            RaceStep::Fail(joined_failure(origin.as_str(), "seeder lane", seeder.as_str())),
        ),
        (Race::OriginFailed(origin), LaneEnd::Seeder(Some(seeder))) => (
            Race::Over,
            RaceStep::Fail(joined_failure(seeder.as_str(), "origin", origin.as_str())),
        ),
        (Race::Open, LaneEnd::Origin(Some(text))) => (Race::OriginFailed(text), RaceStep::Wait),
        (Race::Open, LaneEnd::Seeder(Some(text))) => (Race::SeederFailed(text), RaceStep::Wait),
        (race, _) => (race, RaceStep::Wait),
    }
}

/// A connect fails only where both lanes did: one lane with a client, in either
/// order, wins it.
pub proof fn law_one_live_lane_is_enough(origin: LaneEnd, seeder: LaneEnd)
    requires
        origin is Origin,
        seeder is Seeder,
    ensures
        ({
            let first = race_outcome(Race::Open, origin);
            let then = race_outcome(race_after(Race::Open, origin), seeder);
            (first is Fail || then is Fail) ==> origin->Origin_0 is Some && seeder->Seeder_0 is Some
        }),
        ({
            let first = race_outcome(Race::Open, seeder);
            let then = race_outcome(race_after(Race::Open, seeder), origin);
            (first is Fail || then is Fail) ==> origin->Origin_0 is Some && seeder->Seeder_0 is Some
        }),
        origin->Origin_0 is Some && seeder->Seeder_0 is Some ==> race_outcome(
            race_after(Race::Open, origin),
            seeder,
        ) is Fail && race_outcome(race_after(Race::Open, seeder), origin) is Fail,
{
}

/// A cap that is asked for is the cap, as long as it gives a dial a chance and can
/// be waited for; otherwise it is the nearest that does. Where none is asked for
/// it is the patient one.
pub proof fn law_the_cap_is_the_one_asked_for(ms: u64)
    ensures
        MIN_ORIGIN_CAP_MS <= ms <= MAX_ORIGIN_CAP_MS ==> cap_of(Some(ms)) == ms,
        ms < MIN_ORIGIN_CAP_MS ==> cap_of(Some(ms)) == MIN_ORIGIN_CAP_MS,
        ms > MAX_ORIGIN_CAP_MS ==> cap_of(Some(ms)) == MAX_ORIGIN_CAP_MS,
        cap_of(None) == ORIGIN_DIAL_CAP_MS,
{
}

/// A dial is given up exactly where its cap has passed, or a peer has answered and
/// the floor has passed; and the reason says which, the cap first.
pub proof fn law_a_dial_is_given_up_for_a_reason(
    elapsed_ms: u64,
    cap_ms: u64,
    concession: Option<Concession>,
)
    ensures
        ({
            let conceded = concession matches Some(c) && c.proven && elapsed_ms >= c.floor_ms;
            match given_up(elapsed_ms, cap_ms, concession) {
                None => elapsed_ms < cap_ms && !conceded,
                Some(GivenUp::TimedOut(ms)) => elapsed_ms >= cap_ms && ms == cap_ms,
                Some(GivenUp::Conceded) => elapsed_ms < cap_ms && conceded,
            }
        }),
{
}

/// The first lane with a client is the one that is used, however the other one
/// fared before; where both fail, the failure names both reasons.
pub proof fn law_the_first_client_is_used(why: String, other: String)
    ensures
        race_outcome(Race::Open, LaneEnd::Origin(None)) is UseOrigin,
        race_outcome(Race::SeederFailed(why), LaneEnd::Origin(None)) is UseOrigin,
        race_outcome(Race::Open, LaneEnd::Seeder(None)) is UseSeeder,
        race_outcome(Race::OriginFailed(why), LaneEnd::Seeder(None)) is UseSeeder,
        race_outcome(Race::Open, LaneEnd::Origin(Some(why))) is Wait,
        race_outcome(Race::Open, LaneEnd::Seeder(Some(why))) is Wait,
        race_after(Race::Open, LaneEnd::Origin(Some(why))) == Race::OriginFailed(why),
        race_after(Race::Open, LaneEnd::Seeder(Some(why))) == Race::SeederFailed(why),
        race_after(Race::Open, LaneEnd::Origin(None)) is Over,
        race_after(Race::Open, LaneEnd::Seeder(None)) is Over,
        race_outcome(Race::Over, LaneEnd::Origin(None)) is Wait,
        race_outcome(Race::Over, LaneEnd::Seeder(None)) is Wait,
        race_outcome(Race::SeederFailed(other), LaneEnd::Origin(Some(why)))
            matches RaceStepView::Fail(text) && text == why@ + " ("@ + "seeder lane"@ + ": "@
            + other@ + ")"@,
        race_outcome(Race::OriginFailed(other), LaneEnd::Seeder(Some(why)))
            matches RaceStepView::Fail(text) && text == why@ + " ("@ + "origin"@ + ": "@ + other@
            + ")"@,
{
}

/// Where both lanes failed, the failure is that of the one that failed last, with the
/// other's behind it.
pub proof fn law_a_lost_race_tells_both_failures(origin: String, seeder: String)
    ensures
        race_outcome(
            race_after(Race::Open, LaneEnd::Seeder(Some(seeder))),
            LaneEnd::Origin(Some(origin)),
        ) == RaceStepView::Fail(origin@ + " ("@ + "seeder lane"@ + ": "@ + seeder@ + ")"@),
        race_outcome(
            race_after(Race::Open, LaneEnd::Origin(Some(origin))),
            LaneEnd::Seeder(Some(seeder)),
        ) == RaceStepView::Fail(seeder@ + " ("@ + "origin"@ + ": "@ + origin@ + ")"@),
{
}

} // verus!
