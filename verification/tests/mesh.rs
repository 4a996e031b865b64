use agent_share::client::PeerCard;
use agent_share::lookup::RelayChoice;
use agent_share::mesh::{
    card_merge, default_card_parts, parse_card_parts, parse_transport, shown_count, Advertised,
    CardBook, CardError, CardFields, CardParts,
};
use agent_share::mesh_slot::MeshSlot;
use agent_share::negotiate::{claim_holds, retry_sessions, Dialing, Standing, MAX_DIRECT_PEERS};
use agent_share::peers::{
    describe_connection, direct_peer_ids, identity_fingerprint, path_label, relay_label,
    split_candidate, AddressBook, Candidate, NetPath, PathKind, Reading, SwarmInputs,
};

fn fields(version: &str, runtime: &str) -> CardFields {
    CardFields {
        version: Some(version.to_owned()),
        runtime: Some(runtime.to_owned()),
        transport: None,
        role: None,
    }
}

#[test]
fn a_handed_card_needs_a_version_and_a_runtime() {
    let parts = parse_card_parts(fields("1", "chrome"), "webrtc", Some("consumer".to_owned()))
        .expect("a card");
    assert_eq!(
        parts,
        CardParts {
            version: "1".to_owned(),
            runtime: "chrome".to_owned(),
            transport: "webrtc".to_owned(),
            role: Some("consumer".to_owned()),
        }
    );
    assert_eq!(parse_card_parts(fields("", "chrome"), "x", None), Err(CardError::Version));
    assert_eq!(parse_card_parts(fields("1", ""), "x", None), Err(CardError::Runtime));
    let mut full = fields("1", "chrome");
    full.transport = Some("relay".to_owned());
    full.role = Some("viewer".to_owned());
    let parts = parse_card_parts(full, "webrtc", None).expect("a card");
    assert_eq!((parts.transport.as_str(), parts.role.as_deref()), ("relay", Some("viewer")));
    assert_eq!(CardError::Version.message(), "peer card.version must be a non-empty string");
    assert_eq!(CardError::Runtime.message(), "peer card.runtime must be a non-empty string");
    assert_eq!(default_card_parts("2", "webrtc", None).runtime, "browser");
}

/// What a peer merges into the document is read back by everybody.
#[test]
fn a_published_card_is_read_back() {
    let parts = default_card_parts("2", "webrtc", Some("consumer".to_owned()));
    let mut advertised = Advertised::default();
    assert!(advertised.set_tree("feed".to_owned()));
    assert!(!advertised.set_tree("feed".to_owned()), "the same value is not published again");
    assert!(advertised.set_serving(Some("*".to_owned())));
    assert!(!advertised.set_serving(Some("*".to_owned())));
    let card = advertised.card(&parts, "ep-a");
    assert_eq!((card.tree.as_deref(), card.serving.as_deref()), (Some("feed"), Some("*")));
    let book = CardBook::refresh_book(&card_merge("alice", &card));
    assert_eq!(book.card_for("ep-a"), Some(card.clone()));
    assert_eq!(book.card_for("ep-b"), None);
    assert_eq!(book.known_cards(), vec![card.clone()]);
    assert_eq!(CardBook::seeded(card.clone()).known_cards(), vec![card]);
}

#[test]
fn a_mesh_transport_is_webrtc_or_everything() {
    assert_eq!(parse_transport(None), Ok(false));
    assert_eq!(parse_transport(Some(" ")), Ok(false));
    assert_eq!(parse_transport(Some("dynamic")), Ok(false));
    assert_eq!(parse_transport(Some(" webrtc ")), Ok(true));
    assert_eq!(
        parse_transport(Some("WebRTC")),
        Err("unknown transport \"WebRTC\"; expected `webrtc` or `dynamic`".to_owned())
    );
    assert_eq!(shown_count(3), 3);
    assert_eq!(shown_count(usize::MAX), u32::MAX);
}

/// A membership that comes after the client let go is left again, and nobody is
/// told goodbye twice.
#[test]
fn a_released_client_joins_nothing() {
    let mut slot = MeshSlot::Pending;
    assert!(slot.install(1));
    assert_eq!(slot.peer(), Some(1));
    assert_eq!(slot.leave(Some(2)), Some(1));
    assert!(!slot.install(3));
    assert_eq!(slot.peer(), None);
    let mut kept = MeshSlot::Joined(4);
    assert_eq!(kept.leave(Some(4)), None, "the waiting membership stays");
    let mut page = MeshSlot::Joined(5);
    assert_eq!(page.shutdown(Some(5)), (None, Some(5)));
    let mut page = MeshSlot::Joined(5);
    assert_eq!(page.shutdown(Some(6)), (Some(5), Some(6)));
}

fn standing(sessions: usize) -> Standing {
    Standing { has_transport: true, has_session: false, sessions }
}

#[test]
fn the_lower_id_offers_once() {
    let (low, high) = ([1u8; 32], [2u8; 32]);
    let mut at_low = Dialing::new();
    let mut at_high = Dialing::new();
    assert!(at_low.negotiate_session(&low, &high, standing(0)));
    assert!(!at_high.negotiate_session(&high, &low, standing(0)));
    assert!(!at_low.negotiate_session(&low, &high, standing(0)), "already being dialled");
    at_low.finished(&high);
    assert!(at_low.negotiate_session(&low, &high, standing(0)), "a failed round is retried");
    let third = [3u8; 32];
    assert!(!at_low.negotiate_session(&low, &third, standing(MAX_DIRECT_PEERS)));
    let reached = Standing { has_session: true, ..standing(1) };
    assert!(!at_low.negotiate_session(&low, &third, reached));
    let without = Standing { has_transport: false, ..standing(0) };
    assert!(!at_low.negotiate_session(&low, &third, without));
}

#[test]
fn the_rendezvous_is_not_a_peer_and_a_claim_is_checked() {
    assert_eq!(retry_sessions(&[[1; 32], [2; 32], [3; 32]], &[2; 32]), vec![[1; 32], [3; 32]]);
    assert!(claim_holds(Some([1; 32]), &[1; 32]));
    assert!(!claim_holds(Some([2; 32]), &[1; 32]));
    assert!(!claim_holds(None, &[1; 32]));
}

fn owned(texts: &[&str]) -> Vec<String> {
    texts.iter().map(|t| (*t).to_owned()).collect()
}

#[test]
fn a_peer_in_both_hubs_counts_once() {
    assert_eq!(
        direct_peer_ids(&owned(&["a", "b"]), &owned(&["b", "c"])),
        owned(&["a", "b", "c"])
    );
    assert!(direct_peer_ids(&[], &[]).is_empty());
}

#[test]
fn a_blank_half_of_a_candidate_is_no_value() {
    assert_eq!(
        split_candidate("1.2.3.4".to_owned(), " ".to_owned()),
        Candidate { address: Some("1.2.3.4".to_owned()), kind: None }
    );
    assert_eq!(
        split_candidate(String::new(), "host".to_owned()),
        Candidate { address: None, kind: Some("host".to_owned()) }
    );
}

fn pair(address: &str, kind: &str) -> Option<(String, String)> {
    Some((address.to_owned(), kind.to_owned()))
}

#[test]
fn a_sweep_reads_each_peer_once() {
    let mut book = AddressBook::default();
    let reading = |id: &str, remote, own| Reading { id: id.to_owned(), remote, own };
    book.refresh(
        "me",
        vec![
            reading("a", pair("1.1.1.1", "host"), None),
            reading("a", pair("9.9.9.9", "relay"), pair("8.8.8.8", "host")),
            reading("b", None, pair("", "srflx")),
            reading("c", pair("3.3.3.3", "host"), pair("7.7.7.7", "host")),
        ],
    );
    assert_eq!(book.get("a").address.as_deref(), Some("1.1.1.1"));
    assert_eq!(book.get("b"), Candidate { address: None, kind: None });
    assert_eq!(book.get("c").address.as_deref(), Some("3.3.3.3"));
    assert_eq!(
        book.get("me"),
        Candidate { address: None, kind: Some("srflx".to_owned()) }
    );
    book.record("a".to_owned(), Candidate { address: None, kind: None });
    assert_eq!(book.get("a").address, None);
    assert_eq!(book.get("c").address.as_deref(), Some("3.3.3.3"));
}

#[test]
fn every_peer_has_one_row() {
    let gossip = PeerCard::new("g", "1", "chrome", "", Some("consumer".to_owned()))
        .with_tree(Some("feed".to_owned()))
        .with_serving(Some("*".to_owned()));
    let inputs = SwarmInputs {
        local: "me".to_owned(),
        producer: "p".to_owned(),
        version: "2".to_owned(),
        data_path: "webrtc".to_owned(),
        live: owned(&["p", "d", "d", "me"]),
        addresses: AddressBook::default(),
        cards: Some(CardBook::seeded(gossip)),
    };
    let rows = inputs.swarm_peers();
    let shown: Vec<(&str, &str, &str, &str, &str)> = rows
        .iter()
        .map(|r| {
            (r.id.as_str(), r.role.as_str(), r.flags.as_str(), r.client.as_str(), r.proto.as_str())
        })
        .collect();
    assert_eq!(
        shown,
        vec![
            ("me", "self", "*", "agent-share v2 (browser, webrtc)", "webrtc"),
            ("p", "producer", "SD", "unknown", "webrtc"),
            ("d", "direct", "D", "unknown", "webrtc"),
            ("g", "gossip", "", "agent-share v1 (chrome, )", "gossip"),
        ]
    );
    assert_eq!(rows[3].tree.as_deref(), Some("feed"));
    assert_eq!(rows[3].serving.as_deref(), Some("*"));
    assert_eq!(rows[3].app_role.as_deref(), Some("consumer"));
    assert_eq!(rows[0].version, None);
}

fn path(kind: PathKind, selected: bool) -> NetPath {
    NetPath { kind, selected }
}

#[test]
fn the_path_shown_is_the_one_selected_now() {
    let paths = [path(PathKind::Relay, false), path(PathKind::DataChannel, true)];
    let info = describe_connection(
        &[7; 32],
        &paths,
        "relay",
        owned(&["https://r.example/"]),
        owned(&["https://own.example/"]),
        &RelayChoice::Pinned,
    );
    assert_eq!(info.transport, "webrtc");
    assert_eq!(info.paths, owned(&["relay", "webrtc"]));
    assert_eq!(info.relay_urls, owned(&["https://r.example/"]));
    assert_eq!(info.relay, "pinned");
    assert_eq!(info.identity, identity_fingerprint(&[7; 32]));
    let info = describe_connection(
        &[7; 32],
        &[path(PathKind::Ip, false)],
        "relay",
        vec![],
        owned(&["https://own.example/"]),
        &RelayChoice::Disabled,
    );
    assert_eq!(info.transport, "relay");
    assert_eq!(info.relay_urls, owned(&["https://own.example/"]));
    assert_eq!(info.relay, "disabled");
    assert_eq!(relay_label(&RelayChoice::Custom(vec![])), "custom");
    assert_eq!(path_label(&PathKind::Ip), "ip");
    assert_eq!(path_label(&PathKind::Other("odd".to_owned())), "odd");
}
