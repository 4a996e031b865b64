use agent_share::channel::{
    judge_channel, ChannelState, ChannelVerdict, ChannelWatch, Observed, WatchStep,
    CHANNEL_DISCONNECT_GRACE_MS,
};
use agent_share::known_seeders::{
    decode_known_seeders, forget_known_seeders, known_seeders_key, manifest_locator_key,
    store_name_for, upsert_known_seeder, KnownSeeder, KNOWN_SEEDERS_CAP, KNOWN_SEEDER_TTL_MS,
};
use agent_share::manifest::FileEntry;
use agent_share::origin::{
    capped_origin_dial, concede_due, default_origin_cap_ms, origin_cap_ms, race_step, Concession,
    LaneEnd, Race, RaceStep, MEASURED_COLD_ORIGIN_DIAL_MS, ORIGIN_CONCEDE_FLOOR_MS,
};
use agent_share::probe::{
    begin_drain, drain_with_stall_deadline, probe_answer, probe_target, ProbeRead, ProbeStep,
};
use agent_share::seeder_lane::{first_success, AttemptEvent, Attempts, RaceOutcome};
use agent_share::vet::reoffer_due;

/// Drains `reads` of a probe for `want` bytes.
fn drain(want: usize, reads: Vec<ProbeRead>) -> ProbeStep {
    let mut step = begin_drain(want);
    for read in reads {
        match step {
            ProbeStep::More(remaining) => step = drain_with_stall_deadline(remaining, read),
            done => return done,
        }
    }
    step
}

/// Eight chunks that keep arriving pass, however many windows they take: every
/// one of them starts the window over.
#[test]
fn slow_but_moving_probe_passes() {
    let reads = vec![ProbeRead::Bytes(32 * 1024); 8];
    assert_eq!(
        drain(256 * 1024, reads),
        ProbeStep::Passed,
        "a moving stream must outlive any number of stall windows"
    );
}

/// First bytes land, then nothing, forever.
#[test]
fn frozen_probe_fails_within_one_window() {
    let outcome = drain(256 * 1024, vec![ProbeRead::Bytes(39), ProbeRead::Stalled]);
    assert_eq!(
        outcome,
        ProbeStep::Failed("probe read stalled: this path cannot carry bulk data".to_owned())
    );
}

/// An early end is a failure: the probe asked for more.
#[test]
fn short_probe_body_fails() {
    let outcome = drain(
        256 * 1024,
        vec![ProbeRead::Bytes(1024), ProbeRead::Bytes(1024), ProbeRead::Ended],
    );
    assert_eq!(outcome, ProbeStep::Failed("probe read body ended early".to_owned()));
    assert_eq!(
        drain(10, vec![ProbeRead::Failed("reset".to_owned())]),
        ProbeStep::Failed("reset".to_owned())
    );
}

fn entry(rel_path: &str, size: u64) -> FileEntry {
    FileEntry {
        rel_path: rel_path.to_owned(),
        size,
        mode: 0o644,
        mtime: 0,
    }
}

/// The probe picks the largest file and asks for the full window it can serve.
#[test]
fn probe_reads_the_largest_file_not_the_first() {
    let files = [entry("README", 1024), entry("payload.bin", 1024 * 1024)];
    assert_eq!(probe_target(&files), Some((1, 256 * 1024)));
}

/// When every file is small the request shrinks to match.
#[test]
fn probe_request_clamps_to_the_largest_file() {
    let files = [entry("", 0), entry("small", 4096)];
    assert_eq!(probe_target(&files), Some((1, 4096)));
}

/// All tombstones or empty files: nothing to prove.
#[test]
fn no_probe_target_on_a_manifest_with_no_bytes() {
    let files = [entry("", 0), entry("emptied", 0)];
    assert_eq!(probe_target(&files), None);
}

#[test]
fn the_last_of_two_as_large_is_probed_and_a_short_answer_fails() {
    let files = [entry("a", 9), entry("b", 9), entry("c", 3)];
    assert_eq!(probe_target(&files), Some((1, 9)));
    assert_eq!(probe_answer(9, 9), Ok(()));
    assert_eq!(
        probe_answer(8, 9),
        Err("probe read answered 8 of 9 bytes: too short to prove bulk".to_owned())
    );
}

/// A hung candidate does not block a live one.
#[test]
fn race_winner_beats_a_hanging_candidate() {
    let (race, end) = Attempts::begin(2);
    assert_eq!(end, None);
    let (race, outcome) = first_success(race, AttemptEvent::Won(1));
    assert_eq!(
        outcome,
        Some(RaceOutcome::Winner(1)),
        "a hung candidate must not block a live one"
    );
    assert!(race.refusals.is_empty(), "nobody refused");
}

/// A refusal removes one runner and the race keeps going.
#[test]
fn race_survives_refusals() {
    let (race, _) = Attempts::begin(2);
    let (race, end) = first_success(race, AttemptEvent::Refused("dead on arrival".to_owned()));
    assert_eq!(end, None);
    let (race, outcome) = first_success(race, AttemptEvent::Won(1));
    assert_eq!(outcome, Some(RaceOutcome::Winner(1)));
    assert_eq!(race.refusals, vec!["dead on arrival".to_owned()]);
}

/// The deadline hands control back.
#[test]
fn race_deadline_bounds_an_all_ghost_roster() {
    let (race, _) = Attempts::begin(1);
    let (_, outcome) = first_success(race, AttemptEvent::Deadline);
    assert_eq!(outcome, Some(RaceOutcome::DeadlineExpired));
}

/// Every candidate refusing is an end of its own, with all refusals collected.
#[test]
fn race_reports_when_everyone_refuses() {
    let (race, _) = Attempts::begin(2);
    let (race, end) = first_success(race, AttemptEvent::Refused("one".to_owned()));
    assert_eq!(end, None);
    let (race, outcome) = first_success(race, AttemptEvent::Refused("two".to_owned()));
    assert_eq!(outcome, Some(RaceOutcome::AllFailed));
    assert_eq!(race.refusals.len(), 2);
    assert_eq!(Attempts::begin(0).1, Some(RaceOutcome::AllFailed));
}

/// `failed` and `closed` are terminal.
#[test]
fn failed_ice_kills_without_grace() {
    assert!(matches!(
        judge_channel(ChannelState::Failed, None),
        ChannelVerdict::Kill(_)
    ));
    assert!(matches!(
        judge_channel(ChannelState::Closed, None),
        ChannelVerdict::Kill(_)
    ));
}

/// Inside the grace window `disconnected` waits, past it the channel is dead.
#[test]
fn disconnected_gets_grace_then_dies() {
    assert_eq!(
        judge_channel(ChannelState::Disconnected, None),
        ChannelVerdict::Wait
    );
    assert_eq!(
        judge_channel(ChannelState::Disconnected, Some(CHANNEL_DISCONNECT_GRACE_MS / 2)),
        ChannelVerdict::Wait
    );
    assert!(matches!(
        judge_channel(ChannelState::Disconnected, Some(CHANNEL_DISCONNECT_GRACE_MS)),
        ChannelVerdict::Kill(_)
    ));
}

/// Connected reports healthy no matter how long the disconnect stood.
#[test]
fn recovery_resets_the_grace_window() {
    assert_eq!(
        judge_channel(ChannelState::Connected, Some(CHANNEL_DISCONNECT_GRACE_MS * 2)),
        ChannelVerdict::Healthy
    );
}

#[test]
fn a_watch_on_a_channel_gives_up_once() {
    let mut watch = ChannelWatch::new();
    let gone = Observed::State(ChannelState::Disconnected);
    assert_eq!(watch.poll(1_000, gone), WatchStep::Again);
    assert_eq!(watch.poll(5_000, Observed::State(ChannelState::Connected)), WatchStep::Again);
    assert_eq!(watch.poll(6_000, gone), WatchStep::Again);
    assert_eq!(watch.poll(15_999, gone), WatchStep::Again);
    assert!(matches!(watch.poll(16_000, gone), WatchStep::Close(_)));
    assert_eq!(ChannelWatch::new().poll(0, Observed::MountClosed), WatchStep::Stop);
}

/// One offer at entry, one more past the halfway mark, never a third.
#[test]
fn reoffer_schedule_is_entry_then_halfway() {
    assert!(reoffer_due(0, 0, 15_000));
    assert!(!reoffer_due(1, 7_000, 15_000));
    assert!(reoffer_due(1, 7_501, 15_000));
    assert!(!reoffer_due(2, 14_999, 15_000));
    assert!(reoffer_due(1, 3_001, 6_000));
}

/// A cap chosen here clears the cold dial a live origin was measured needing.
#[test]
fn a_self_chosen_origin_cap_clears_an_honest_cold_dial() {
    assert!(
        default_origin_cap_ms() >= MEASURED_COLD_ORIGIN_DIAL_MS,
        "a self-chosen cap of {} ms cuts off a dial measured at {} ms",
        default_origin_cap_ms(),
        MEASURED_COLD_ORIGIN_DIAL_MS,
    );
}

/// A card is a claim; only a dial that landed is proof.
#[test]
fn only_an_answered_peer_concedes_the_origin() {
    let floor = ORIGIN_CONCEDE_FLOOR_MS;
    assert!(!concede_due(false, floor * 100, floor));
    assert!(!concede_due(true, floor / 2, floor));
    assert!(concede_due(true, floor, floor));
}

fn concession(proven: bool, floor_ms: u64) -> Option<Concession> {
    Some(Concession { proven, floor_ms })
}

/// Without proof a slow origin is left alone however long the floor has passed.
#[test]
fn ghost_cards_alone_never_concede_the_origin() {
    let waiting: Option<Result<u32, String>> = None;
    for elapsed in [0, 50, 299] {
        assert_eq!(
            capped_origin_dial(waiting.clone(), elapsed, 5_000, concession(false, 50)),
            None
        );
    }
    let outcome = capped_origin_dial(Some(Ok(42)), 300, 5_000, concession(false, 50));
    assert_eq!(
        outcome,
        Some(Ok(42)),
        "a roster of ghosts must not cut a live origin's dial short"
    );
}

/// A peer that really answered does concede.
#[test]
fn origin_dial_concedes_once_cards_vouch() {
    let outcome = capped_origin_dial::<u32>(None, 0, 5_000, concession(true, 0));
    let message = outcome.expect("an end").expect_err("a vouched-for share must concede the dial");
    assert!(
        message.contains("conceded"),
        "the error must name the concession: {message:?}"
    );
}

/// A dial that resolves inside the floor wins.
#[test]
fn origin_dial_win_beats_an_early_card() {
    assert_eq!(capped_origin_dial::<u32>(None, 49, 5_000, concession(true, 2_000)), None);
    let outcome = capped_origin_dial(Some(Ok(9)), 50, 5_000, concession(true, 2_000));
    assert_eq!(
        outcome,
        Some(Ok(9)),
        "a dial resolving inside the floor must win"
    );
}

/// With nobody answering, the cap governs.
#[test]
fn origin_dial_times_out_with_no_cards() {
    assert_eq!(capped_origin_dial::<u32>(None, 99, 100, concession(false, 0)), None);
    let outcome = capped_origin_dial::<u32>(None, 100, 100, concession(false, 0));
    let message = outcome.expect("an end").expect_err("the cap must fire");
    assert!(
        message.contains("timed out"),
        "the error must name the timeout: {message:?}"
    );
}

#[test]
fn an_asked_cap_is_kept_within_bounds() {
    assert_eq!(origin_cap_ms(None), default_origin_cap_ms());
    assert_eq!(origin_cap_ms(Some(8_000)), 8_000);
    assert_eq!(origin_cap_ms(Some(1)), 1_000);
    assert_eq!(origin_cap_ms(Some(u64::MAX)), 2_147_483_647);
}

/// One live lane is enough, in either order; two dead ones fail with both
/// reasons.
#[test]
fn a_connect_fails_only_where_both_lanes_did() {
    let (race, step) = race_step(Race::Open, LaneEnd::Origin(Some("gone".to_owned())));
    assert_eq!(step, RaceStep::Wait);
    let (_, step) = race_step(race.clone(), LaneEnd::Seeder(None));
    assert_eq!(step, RaceStep::UseSeeder);
    let (_, step) = race_step(race, LaneEnd::Seeder(Some("nobody".to_owned())));
    assert_eq!(step, RaceStep::Fail("nobody (origin: gone)".to_owned()));
    let (race, step) = race_step(Race::Open, LaneEnd::Seeder(Some("nobody".to_owned())));
    assert_eq!(step, RaceStep::Wait);
    let (_, step) = race_step(race.clone(), LaneEnd::Origin(None));
    assert_eq!(step, RaceStep::UseOrigin);
    let (_, step) = race_step(race, LaneEnd::Origin(Some("gone".to_owned())));
    assert_eq!(step, RaceStep::Fail("gone (seeder lane: nobody)".to_owned()));
}

fn seeder(endpoint: &str, seen_ms: u64) -> KnownSeeder {
    KnownSeeder {
        endpoint: endpoint.to_owned(),
        tree: "aaaa".to_owned(),
        seen_ms,
    }
}

/// A stored roster drops entries past their time, and one that could not be
/// read is empty.
#[test]
fn known_seeders_decode_prunes_and_tolerates_garbage() {
    let now = KNOWN_SEEDER_TTL_MS * 2;
    let stored = vec![
        seeder("fresh", now - 1_000),
        seeder("stale", now - KNOWN_SEEDER_TTL_MS),
    ];
    let decoded = decode_known_seeders(Some(stored), now);
    assert_eq!(decoded, vec![seeder("fresh", now - 1_000)]);
    assert!(decode_known_seeders(None, now).is_empty());
}

/// Newest first, one record per endpoint, never past the cap.
#[test]
fn known_seeders_upsert_dedupes_and_caps() {
    let mut list = Vec::new();
    for n in 0..6 {
        list = upsert_known_seeder(list, seeder(&format!("peer-{n}"), n));
    }
    assert_eq!(list.len(), KNOWN_SEEDERS_CAP);
    assert_eq!(list[0].endpoint, "peer-5");
    // Re-recording an endpoint moves it to the front instead of duplicating it.
    list = upsert_known_seeder(list, seeder("peer-3", 100));
    assert_eq!(list.len(), KNOWN_SEEDERS_CAP);
    assert_eq!(list[0].endpoint, "peer-3");
    assert_eq!(
        list.iter().filter(|entry| entry.endpoint == "peer-3").count(),
        1
    );
}

#[test]
fn only_the_dialled_are_forgotten() {
    let list = vec![seeder("a", 1), seeder("b", 2), seeder("c", 3)];
    let left = forget_known_seeders(list, &["b".to_owned(), "x".to_owned()]);
    assert_eq!(left, vec![seeder("a", 1), seeder("c", 3)]);
}

/// A share's records are kept under keys of its own.
#[test]
fn two_shares_do_not_share_their_records() {
    let keys = |token: &[u8; 32]| {
        [store_name_for(token), manifest_locator_key(token), known_seeders_key(token)]
    };
    let one = keys(&[1; 32]);
    let two = keys(&[2; 32]);
    for i in 0..3 {
        assert_ne!(one[i], two[i]);
        for j in 0..i {
            assert_ne!(one[i], one[j]);
        }
    }
    assert_eq!(one, keys(&[1; 32]));
}
