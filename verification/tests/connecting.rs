use agent_share::authorship::{sign_manifest, SecretKey, SignedManifest};
use agent_share::candidates::{
    candidates, launch_race, launch_redial, majority, plan_race, plan_redial, vouchers,
};
use agent_share::client::PeerCard;
use agent_share::connect::{
    check_password, connect_webrtc, dial_with_retry, ensure_reachable_addr, ensure_relay_selected,
    password_required, prepare_connect, redeem_auth, settle_path, settled_path_label, MountAction,
    MountEvent, MountStage, PathLook,
};
use agent_share::known_seeders::KnownSeeder;
use agent_share::lookup::{LookupOpts, RelayChoice, RelayUrl};
use agent_share::manifest::{FileEntry, MountManifest};
use agent_share::peers::{NetPath, PathKind};
use agent_share::seeder_lane::{
    adopt_vetted, after_redial, connect_via_seeder, rearm, seeder_relays, LaneAction, LaneEvent,
    LaneStage, LaneTerms,
};
use agent_share::signal::{
    negotiate, serve_signal, AnswerAction, AnswerEvent, AnswerStage, OfferAction, OfferEvent,
    OfferStage, SignalStep,
};
use agent_share::sync::HeldSet;
use agent_share::ticket::{MountTicket, TICKET_FLAG_PASSWORD, TICKET_KIND_SHARE};
use agent_share::transport_mode::TransportMode;
use agent_share::vet::{
    seeder_webrtc_dial, short_of, vet_seeder_candidate, ChannelDial, DialAction, DialEvent,
    VetAction, VetEvent, VetStage, VetTerms,
};

fn ticket(flags: u8) -> MountTicket {
    MountTicket {
        addr: b"{}".to_vec(),
        secret: [5; 32],
        lookups: LookupOpts::loopback(),
        kind: TICKET_KIND_SHARE,
        flags,
        mesh_id: None,
        author: None,
    }
}

#[test]
fn a_password_goes_with_its_ticket() {
    assert_eq!(check_password(true, true), Ok(()));
    assert_eq!(check_password(false, false), Ok(()));
    assert_eq!(
        check_password(true, false),
        Err("unauthorized: this share needs a password".to_owned())
    );
    assert_eq!(
        check_password(false, true),
        Err("this ticket is not password-protected — check you have the right link".to_owned())
    );
    let open = redeem_auth(&ticket(0), None).ok().expect("an open share");
    assert_eq!(open.token(), &[5; 32]);
    let closed = redeem_auth(&ticket(TICKET_FLAG_PASSWORD), Some([8; 32])).ok().expect("protected");
    assert_eq!(closed.token(), &[8; 32]);
    assert!(closed.password_protected());
    assert!(redeem_auth(&ticket(0), Some([8; 32])).is_err());
}

#[test]
fn a_connect_is_refused_in_order() {
    let payload = ticket(0).encode();
    let prepared = prepare_connect(None, &payload, false, Some(8_000)).expect("a connect");
    assert_eq!(prepared.mode, TransportMode::Dynamic);
    assert_eq!(prepared.ticket, ticket(0));
    assert!(prepared.lanes.relay_fallback && prepared.lanes.raced);
    assert_eq!(prepared.lanes.cap_ms, 8_000);
    let pinned = prepare_connect(Some("webrtc"), &payload, false, None).expect("a connect");
    assert!(!pinned.lanes.relay_fallback && !pinned.lanes.raced);
    let refused = |transport, payload: &[u8], given| {
        prepare_connect(transport, payload, given, None).err().expect("refused")
    };
    assert!(refused(Some("turn"), &[], true).starts_with("unknown transport mode"));
    assert_eq!(
        refused(None, &[], true),
        "decode ticket: the bytes stop before a field they announced"
    );
    assert!(refused(None, &payload, true).starts_with("this ticket is not password-protected"));
    assert_eq!(password_required(&ticket(TICKET_FLAG_PASSWORD).encode()), Ok(true));
    assert_eq!(password_required(&payload), Ok(false));
    assert!(password_required(&[1, 2]).is_err());
}

#[test]
fn an_address_without_a_way_is_refused() {
    assert!(ensure_reachable_addr(1, 0).is_ok());
    assert!(ensure_reachable_addr(0, 1).is_ok());
    assert_eq!(
        ensure_reachable_addr(0, 0),
        Err("ticket has no relay or IP address — the producer was not reachable when the ticket was minted")
    );
}

fn failed(why: &str) -> MountEvent {
    MountEvent::Failed(why.to_owned())
}

/// The pinned mode uses the data channel or nothing.
#[test]
fn webrtc_mode_takes_no_other_path() {
    let (stage, action) = connect_webrtc(false, MountStage::Bind, MountEvent::Done);
    assert_eq!(action, MountAction::Signal);
    assert_eq!(
        connect_webrtc(false, stage.clone(), failed("ICE")).1,
        MountAction::Fail("ICE".to_owned())
    );
    let (stage, action) = connect_webrtc(false, stage, MountEvent::Done);
    assert_eq!(action, MountAction::Dial);
    assert_eq!(
        connect_webrtc(false, stage.clone(), failed("reset")).1,
        MountAction::Fail("dial the mount ALPN over WebRTC: reset".to_owned())
    );
    let (stage, action) = connect_webrtc(false, stage, MountEvent::Done);
    assert_eq!(action, MountAction::Settle);
    let settled = |selected: Option<&str>| {
        MountEvent::Settled(selected.map(str::to_owned), vec!["relay".to_owned(), "ip".to_owned()])
    };
    assert_eq!(
        connect_webrtc(false, stage.clone(), settled(Some("webrtc"))).1,
        MountAction::UseChannel(false)
    );
    assert_eq!(
        connect_webrtc(false, stage.clone(), settled(Some("relay"))).1,
        MountAction::Fail(
            "mount connected but selected relay rather than WebRTC (paths=[\"relay\", \"ip\"]), and webrtc mode forbids a fallback".to_owned()
        )
    );
    assert!(matches!(
        connect_webrtc(false, stage, settled(None)).1,
        MountAction::Fail(text) if text.contains("selected no path rather")
    ));
}

/// The dynamic mode falls back to the relay before it fails.
#[test]
fn dynamic_mode_falls_back() {
    let (stage, action) = connect_webrtc(true, MountStage::Signal, failed("ICE"));
    assert_eq!(action, MountAction::DialRelay);
    assert_eq!(
        connect_webrtc(true, stage.clone(), MountEvent::Done).1,
        MountAction::UseRelay("WebRTC signal/ICE failed: ICE".to_owned())
    );
    assert_eq!(
        connect_webrtc(true, stage, failed("dead")).1,
        MountAction::Fail("dial the mount ALPN over iroh relay/IP (fallback): dead".to_owned())
    );
    let (stage, _) = connect_webrtc(true, MountStage::Dial, failed("reset"));
    assert_eq!(stage, MountStage::Fallback("WebRTC mount dial failed: reset".to_owned()));
    assert_eq!(
        connect_webrtc(true, MountStage::Dial, MountEvent::Done).1,
        MountAction::UseChannel(true)
    );
}

#[test]
fn a_provisional_path_is_firmed_up() {
    let settled = settle_path("webrtc".to_owned(), Some("webrtc".to_owned()));
    assert_eq!((settled.data_path.as_str(), settled.reason), ("webrtc", None));
    let odd = settle_path("webrtc".to_owned(), Some("relay".to_owned()));
    assert_eq!(odd.data_path, "relay");
    assert_eq!(
        odd.reason.as_deref(),
        Some("the mount reported relay rather than WebRTC on a relay-free endpoint")
    );
    let none = settle_path("webrtc".to_owned(), None);
    assert_eq!(none.data_path, "webrtc");
    assert!(none.reason.expect("reported").contains("no path before the settle deadline"));
}

fn path(kind: PathKind, selected: bool) -> NetPath {
    NetPath { kind, selected }
}

#[test]
fn paths_are_waited_for_within_their_deadlines() {
    let none = [path(PathKind::Ip, false)];
    assert_eq!(settled_path_label(&none, 2_999), PathLook::Again);
    assert_eq!(settled_path_label(&none, 3_000), PathLook::Unsettled);
    let ip = [path(PathKind::Ip, true), path(PathKind::Relay, false)];
    assert_eq!(settled_path_label(&ip, 9_000), PathLook::Selected("ip".to_owned()));
    assert_eq!(ensure_relay_selected(&[path(PathKind::Relay, true)], 9_000), Ok(true));
    assert_eq!(ensure_relay_selected(&ip, 4_999), Ok(false));
    let refused = ensure_relay_selected(&ip, 5_000).expect_err("not the relay");
    assert!(refused.starts_with(
        "relay bench selected a non-relay path (paths=[\"*ip\", \"relay\"]); producer and"
    ));
    assert_eq!(dial_with_retry(89_999, "x"), Ok(2_000));
    assert_eq!(
        dial_with_retry(90_000, "x"),
        Err("could not reach bench producer over iroh relay: x".to_owned())
    );
}

#[test]
fn an_offer_ends_with_the_named_peer() {
    let producer = [1u8; 32];
    let step = |stage, event| negotiate(&producer, stage, event);
    assert_eq!(step(OfferStage::Look, OfferEvent::Looked(true)).1, OfferAction::Reuse);
    let (stage, action) = step(OfferStage::Look, OfferEvent::Looked(false));
    assert_eq!(action, OfferAction::Offer);
    assert_eq!(
        step(stage, OfferEvent::Refused("busy".to_owned(), false)).1,
        OfferAction::Fail("producer refused WebRTC signalling: busy".to_owned())
    );
    assert_eq!(step(stage, OfferEvent::Refused("busy".to_owned(), true)).1, OfferAction::Reuse);
    assert_eq!(
        step(stage, OfferEvent::Failed(SignalStep::ReadAnswer, "reset".to_owned())).1,
        OfferAction::Fail(
            "read answer (producer never answered — is it still sharing?): reset".to_owned()
        )
    );
    let (stage, action) = step(stage, OfferEvent::Answered);
    assert_eq!(action, OfferAction::Complete);
    assert_eq!(step(stage, OfferEvent::Attached(producer)).1, OfferAction::Attached);
    let wrong = format!(
        "answer endpoint id {} does not match ticket producer {}",
        "02".repeat(32),
        "01".repeat(32)
    );
    assert_eq!(step(stage, OfferEvent::Attached([2; 32])).1, OfferAction::Fail(wrong));
}

#[test]
fn an_answer_is_sent_before_it_is_completed() {
    let (stage, action) = serve_signal(AnswerStage::Read, AnswerEvent::Offer(false));
    assert_eq!(action, AnswerAction::Answer);
    let (stage, action) = serve_signal(stage, AnswerEvent::Done);
    assert_eq!(action, AnswerAction::Complete);
    assert_eq!(serve_signal(stage, AnswerEvent::Done).1, AnswerAction::Finish);
    let (stage, action) = serve_signal(AnswerStage::Read, AnswerEvent::Offer(true));
    assert_eq!(action, AnswerAction::Refuse);
    assert_eq!(serve_signal(stage, AnswerEvent::Done).1, AnswerAction::Finish);
    assert_eq!(
        serve_signal(
            AnswerStage::Read,
            AnswerEvent::Failed(SignalStep::ParseOffer, "eof".to_owned())
        )
        .1,
        AnswerAction::Fail("parse signal offer: eof".to_owned())
    );
}

#[test]
fn a_channel_is_offered_twice_and_then_given_up() {
    let looked = |elapsed_ms| DialEvent::Looked { has_session: false, elapsed_ms };
    let dial = ChannelDial { offers: 0, wait_ms: 6_000 };
    let (dial, action) = seeder_webrtc_dial(dial, looked(0));
    assert_eq!(action, DialAction::Offer(1));
    assert_eq!(
        seeder_webrtc_dial(dial, DialEvent::Offered { elapsed_ms: 10 }).1,
        DialAction::Sleep
    );
    assert_eq!(seeder_webrtc_dial(dial, looked(3_000)).1, DialAction::Sleep);
    let (dial, action) = seeder_webrtc_dial(dial, looked(3_001));
    assert_eq!(action, DialAction::Offer(2));
    assert_eq!(seeder_webrtc_dial(dial, looked(6_000)).1, DialAction::Sleep);
    assert_eq!(seeder_webrtc_dial(dial, looked(6_001)).1, DialAction::GiveUp);
    let there = DialEvent::Looked { has_session: true, elapsed_ms: 9_000 };
    assert_eq!(seeder_webrtc_dial(dial, there).1, DialAction::Dial);
    assert_eq!(short_of("0123456789"), "01234567");
    assert_eq!(short_of("0123"), "0123");
}

fn tree(size: u64) -> MountManifest {
    MountManifest {
        dirs: vec![],
        files: vec![FileEntry { rel_path: "a".to_owned(), size, mode: 0o644, mtime: 0 }],
    }
}

fn envelope(manifest: &MountManifest) -> Vec<u8> {
    let key = SecretKey::from_bytes(&[7; 32]);
    let bytes = manifest.encode();
    SignedManifest { version: 1, signature: sign_manifest(&key, 1, &bytes), manifest: bytes }
        .encode()
}

fn terms(manifest: &MountManifest) -> VetTerms {
    VetTerms {
        endpoint: "0123456789abcdef".to_owned(),
        tree: manifest.fingerprint(),
        author: Some(SecretKey::from_bytes(&[7; 32]).public()),
    }
}

fn refused(action: VetAction) -> String {
    match action {
        VetAction::Refuse(text) => text,
        other => panic!("expected a refusal, got {other:?}"),
    }
}

/// A data channel is probed, and one that stalls is replaced by the relay.
#[test]
fn a_candidate_is_vetted_over_its_channel() {
    let terms = terms(&tree(100));
    let body = envelope(&tree(100));
    let (stage, action) = vet_seeder_candidate(&terms, VetStage::Channel, VetEvent::Reached);
    assert_eq!(action, VetAction::Fetch);
    let (stage, action) = vet_seeder_candidate(&terms, stage, VetEvent::Served(body.clone()));
    assert_eq!(action, VetAction::Probe(0, 100));
    assert_eq!(
        vet_seeder_candidate(&terms, stage.clone(), VetEvent::Proven).1,
        VetAction::Accept(body.clone(), false)
    );
    let (stage, action) = vet_seeder_candidate(&terms, stage, VetEvent::Unproven);
    assert_eq!(action, VetAction::CloseAndRedial);
    assert_eq!(
        vet_seeder_candidate(&terms, stage.clone(), VetEvent::Reached).1,
        VetAction::Accept(body, true)
    );
    assert_eq!(
        refused(vet_seeder_candidate(&terms, stage, VetEvent::Unreached("no".to_owned())).1),
        "01234567: relay redial after failed probe: no"
    );
}

#[test]
fn a_candidate_over_the_relay_is_not_probed() {
    let terms = terms(&tree(100));
    let (stage, action) =
        vet_seeder_candidate(&terms, VetStage::Channel, VetEvent::Unreached("ICE".to_owned()));
    assert_eq!(action, VetAction::DialRelay);
    assert_eq!(
        refused(
            vet_seeder_candidate(&terms, stage.clone(), VetEvent::Unreached("dead".to_owned())).1
        ),
        "01234567: webrtc: ICE; relay: dead"
    );
    let (stage, _) = vet_seeder_candidate(&terms, stage, VetEvent::Reached);
    assert_eq!(stage, VetStage::Listing(false));
    let body = envelope(&tree(100));
    assert_eq!(
        vet_seeder_candidate(&terms, stage.clone(), VetEvent::Served(body.clone())).1,
        VetAction::Accept(body, false)
    );
    assert_eq!(
        refused(
            vet_seeder_candidate(&terms, stage.clone(), VetEvent::Served(envelope(&tree(1)))).1
        ),
        "01234567: served a different tree than its card claimed"
    );
    assert_eq!(
        refused(vet_seeder_candidate(&terms, stage.clone(), VetEvent::Served(vec![1])).1),
        "01234567: decode manifest: the bytes stop before a field they announced"
    );
    assert_eq!(
        refused(vet_seeder_candidate(&terms, stage, VetEvent::Unserved("lost".to_owned())).1),
        "01234567: lost"
    );
}

fn voucher(endpoint: &str, transport: &str, tree: &str) -> PeerCard {
    PeerCard::new(endpoint, "1", "rust", transport, None)
        .with_tree(Some(tree.to_owned()))
        .with_serving(Some("*".to_owned()))
}

fn endpoint_text(seed: u8) -> String {
    iroh_base::SecretKey::from_bytes(&[seed; 32]).public().to_string()
}

#[test]
fn the_majority_of_vouchers_is_dialled_native_first() {
    let cards = vec![
        voucher("own", "unicast", "t1"),
        voucher("w1", "webrtc", "t1"),
        PeerCard::new("mute", "1", "rust", "unicast", None),
        voucher("n1", "unicast", "t1"),
        voucher("odd", "unicast", "t2"),
        voucher("w2", "webrtc", "t1"),
    ];
    let vouching = vouchers(&cards, "own");
    let names = |cards: &[PeerCard]| {
        cards.iter().map(|c| c.endpoint.clone()).collect::<Vec<String>>()
    };
    assert_eq!(names(&vouching), ["w1", "n1", "odd", "w2"]);
    assert_eq!(majority(&vouching).as_deref(), Some("t1"));
    assert_eq!(majority(&[]), None);
    assert_eq!(names(&candidates(&vouching, "t1", &[9, 100, 1])), ["n1", "w2", "w1"]);
    assert_eq!(names(&candidates(&vouching, "t1", &[1, 100, 9])), ["n1", "w1", "w2"]);
}

#[test]
fn a_race_passes_over_what_is_no_endpoint() {
    let text = endpoint_text(3);
    let id = *iroh_base::SecretKey::from_bytes(&[3; 32]).public().as_bytes();
    let cards = vec![voucher("nonsense", "unicast", "t"), voucher(&text, "unicast", "t")];
    let launches = plan_race(&cards, "t");
    assert_eq!(launches.len(), 1);
    assert_eq!(launches[0].endpoint, text);
    assert_eq!(launches[0].id, id);
    assert_eq!((launches[0].tree.as_str(), launches[0].delay_ms), ("t", 2_000));
    let many: Vec<PeerCard> = (0..9).map(|_| voucher(&text, "unicast", "t")).collect();
    assert_eq!(plan_race(&many, "t").len(), 6);
    let two = launch_race(&["a".to_owned(), "b".to_owned()], &[Some([1; 32]), None], "t");
    assert_eq!((two.len(), two[0].delay_ms), (1, 0));
}

fn known(endpoint: &str) -> KnownSeeder {
    KnownSeeder { endpoint: endpoint.to_owned(), tree: "t".to_owned(), seen_ms: 1 }
}

#[test]
fn a_redial_skips_this_peer_and_forgets_the_dead() {
    let (a, b) = (endpoint_text(1), endpoint_text(2));
    let records = vec![known("nonsense"), known(&a), known(&b)];
    let plan = plan_redial(&records, &a, true);
    assert_eq!(plan.len(), 1);
    assert_eq!((plan[0].endpoint.as_str(), plan[0].delay_ms), (b.as_str(), 0));
    assert!(plan_redial(&records, &a, false).is_empty(), "no relay to dial over");
    let both = launch_redial(&[known("x"), known("y")], &[Some([1; 32]), Some([2; 32])], "own");
    assert_eq!(both[1].delay_ms, 500);
    let left = after_redial(records.clone(), &plan, None);
    assert_eq!(left, vec![known("nonsense"), known(&a)]);
    let newest = KnownSeeder { seen_ms: 9, ..known(&b) };
    let won = after_redial(records, &plan, Some(newest.clone()));
    assert_eq!(won, vec![newest, known("nonsense"), known(&a)]);
}

fn lane_terms() -> LaneTerms {
    LaneTerms {
        origin: "gone".to_owned(),
        own: "own".to_owned(),
        has_relay: true,
        unchecked_password: false,
    }
}

fn lane_failure(terms: &LaneTerms, stage: LaneStage, event: LaneEvent) -> String {
    match connect_via_seeder(terms, stage, event) {
        (LaneStage::Over, LaneAction::Fail(text)) => text,
        other => panic!("expected a failure, got {other:?}"),
    }
}

#[test]
fn a_lane_looks_at_home_before_it_asks_anybody() {
    let terms = lane_terms();
    let (stage, action) = connect_via_seeder(&terms, LaneStage::Join, LaneEvent::Joined);
    assert_eq!(action, LaneAction::Rearm);
    let (stage, action) = connect_via_seeder(&terms, stage, LaneEvent::Rearmed);
    assert_eq!(action, LaneAction::Redial);
    assert_eq!(
        connect_via_seeder(&terms, stage.clone(), LaneEvent::Redialled(true)).1,
        LaneAction::UseKnown
    );
    let (stage, action) = connect_via_seeder(&terms, stage, LaneEvent::Redialled(false));
    assert_eq!(action, LaneAction::Poll(0));
    let (stage, action) =
        connect_via_seeder(&terms, stage, LaneEvent::Cards(vec![], vec![], 12_000));
    assert_eq!(action, LaneAction::Poll(500));
    let text = endpoint_text(3);
    let cards = vec![voucher(&text, "unicast", "t")];
    let (stage, action) =
        connect_via_seeder(&terms, stage, LaneEvent::Cards(cards, vec![1], 12_001));
    match action {
        LaneAction::Race(launches) => assert_eq!(launches[0].endpoint, text),
        other => panic!("expected a race, got {other:?}"),
    }
    assert_eq!(
        connect_via_seeder(&terms, stage, LaneEvent::Won(text.clone())).1,
        LaneAction::Adopt(text, "t".to_owned())
    );
}

#[test]
fn each_failure_of_a_lane_says_why() {
    let terms = lane_terms();
    assert_eq!(
        lane_failure(&terms, LaneStage::Join, LaneEvent::JoinFailed("no".to_owned())),
        "the origin is unreachable (gone) and the share's mesh could not be joined (no)"
    );
    let late = || LaneEvent::Cards(vec![], vec![], 12_001);
    assert_eq!(
        lane_failure(&terms, LaneStage::Poll, late()),
        "the origin is unreachable (gone) and no peer on the mesh vouches for the share"
    );
    let unchecked = LaneTerms { unchecked_password: true, ..lane_terms() };
    assert_eq!(
        lane_failure(&unchecked, LaneStage::Poll, late()),
        "unauthorized: the origin is unreachable (gone) and no peer on the mesh vouches for the share — the password may also be wrong"
    );
    let cards = || LaneEvent::Cards(vec![voucher("nonsense", "unicast", "t")], vec![], 0);
    assert_eq!(
        lane_failure(&terms, LaneStage::Poll, cards()),
        "the origin is unreachable (gone) and no vouching card carries a dialable endpoint"
    );
    let relayless = LaneTerms { has_relay: false, ..lane_terms() };
    assert_eq!(
        lane_failure(&relayless, LaneStage::Poll, cards()),
        "this ticket names no relay, and a tab has no other way to reach a seeder"
    );
    let race = LaneStage::Race("t".to_owned());
    let whys = vec!["a: x".to_owned(), "b: y".to_owned()];
    assert_eq!(
        lane_failure(&terms, race.clone(), LaneEvent::AllFailed(whys.clone())),
        "the origin is unreachable (gone) and no seeder could serve the share: a: x; b: y"
    );
    assert_eq!(
        lane_failure(&terms, race, LaneEvent::DeadlineExpired(whys)),
        "the origin is unreachable (gone) and no seeder answered inside 35 s: a: x; b: y"
    );
}

#[test]
fn an_adopted_seeder_is_pinned_to_its_tree() {
    let on_channel = adopt_vetted("0123456789", false, Some("webrtc".to_owned()), "t", "gone");
    assert_eq!(on_channel.data_path, "webrtc");
    assert_eq!(on_channel.reason, "origin unreachable (gone); reading from seeder 01234567");
    assert_eq!(on_channel.pinned_tree, "t");
    assert!(!on_channel.on_relay_endpoint);
    let demoted = adopt_vetted("0123456789", true, Some("webrtc".to_owned()), "t", "gone");
    assert_eq!(demoted.data_path, "relay");
    assert!(demoted.on_relay_endpoint);
    assert!(demoted.reason.ends_with(" over the relay (data channel failed the bulk probe)"));
    assert_eq!(adopt_vetted("0", false, None, "t", "gone").data_path, "relay");
}

#[test]
fn a_peer_serves_again_what_it_has_stored() {
    let manifest = tree(1).encode();
    let mut held = HeldSet::new();
    assert_eq!(rearm(false, &manifest, 1, &held), None);
    held.insert(0);
    let rearmed = rearm(false, &manifest, 1, &held).expect("something is held");
    assert_eq!(rearmed.tree, tree(1).fingerprint());
    assert_eq!(rearmed.serving.as_deref(), Some("*"));
    assert_eq!(rearm(true, &manifest, 1, &held), None);
}

#[test]
fn a_share_is_reached_over_the_ladder_it_names() {
    let url = |text: &str| RelayUrl::parse(text).expect("url");
    let pinned = || vec![url("https://pinned.example")];
    assert!(seeder_relays(&RelayChoice::Disabled, pinned()).is_empty());
    assert_eq!(seeder_relays(&RelayChoice::Pinned, pinned()), pinned());
    let custom = RelayChoice::Custom(vec![url("https://a.example"), url("https://b.example")]);
    assert_eq!(
        seeder_relays(&custom, pinned()),
        vec![url("https://a.example"), url("https://b.example")]
    );
}
