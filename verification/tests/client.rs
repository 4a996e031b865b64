use agent_share::client::{
    format_label, CardTexts, PeerCard, CARD_ENDPOINT, CARD_SERVING, CARD_TREE, PRODUCT,
};

fn card() -> PeerCard {
    PeerCard::new(
        "endpoint-a",
        "1.2.3",
        "rust",
        "unicast",
        Some("producer".to_owned()),
    )
}

#[test]
fn a_tree_fingerprint_round_trips_through_the_card() {
    let with = card().with_tree(Some("0123456789abcdef".to_owned()));
    let parsed = PeerCard::from_card_value(&with.to_card_value()).expect("parse");
    assert_eq!(parsed, with);
    assert_eq!(parsed.tree.as_deref(), Some("0123456789abcdef"));
}

/// A peer that has not learned its manifest yet does not carry the key.
#[test]
fn an_unknown_tree_is_omitted_from_the_wire() {
    let value = card().to_card_value();
    assert!(
        value.get(CARD_TREE).is_none(),
        "an unset tree must not be serialized at all, got {value}"
    );
}

/// Losing a field costs that field, never the peer; without an endpoint there
/// is no identity, and the card is dropped whole.
#[test]
fn a_card_missing_fields_yields_what_it_can() {
    for absent in [CARD_TREE, "role", "version", "client"] {
        let mut value = card().with_tree(Some("dead".to_owned())).to_card_value();
        value
            .as_object_mut()
            .expect("card is an object")
            .remove(absent);
        let parsed = PeerCard::from_card_value(&value)
            .unwrap_or_else(|| panic!("a card missing {absent} must still parse"));
        assert_eq!(parsed.endpoint, "endpoint-a", "identity survives");
    }

    let mut headless = card().to_card_value();
    headless
        .as_object_mut()
        .expect("card is an object")
        .remove(CARD_ENDPOINT);
    assert!(
        PeerCard::from_card_value(&headless).is_none(),
        "without an endpoint there is nothing to key the roster by"
    );
}

#[test]
fn label_matches_torrent_style_examples() {
    assert_eq!(
        format_label("1.2.3", "chrome", "webrtc"),
        "agent-share v1.2.3 (chrome, webrtc)"
    );
    assert_eq!(
        format_label("1.2.3", "rust", "unicast"),
        "agent-share v1.2.3 (rust, unicast)"
    );
}

#[test]
fn card_round_trips() {
    let card = PeerCard::new("eid", "0.1.0", "chrome", "webrtc", Some("consumer".into()));
    let value = card.to_card_value();
    let parsed = PeerCard::from_card_value(&value).unwrap();
    assert_eq!(parsed, card);
    assert_eq!(parsed.client, "agent-share v0.1.0 (chrome, webrtc)");
}

#[test]
fn what_a_card_can_serve_round_trips_with_it() {
    let with = card().with_serving(Some("0-3,7".to_owned()));
    let value = with.to_card_value();
    assert_eq!(value.get(CARD_SERVING).and_then(|v| v.as_str()), Some("0-3,7"));
    assert_eq!(PeerCard::from_card_value(&value).expect("parse"), with);
    assert_eq!(with.app, PRODUCT);
}

/// The texts of a card are read the same whatever document they came from.
#[test]
fn a_card_is_read_from_its_texts() {
    let texts = CardTexts {
        endpoint: Some("ep".to_owned()),
        app: None,
        version: Some("1".to_owned()),
        runtime: None,
        transport: None,
        client: None,
        role: None,
        tree: None,
        serving: None,
    };
    let card = PeerCard::from_texts(texts).expect("an endpoint is enough");
    assert_eq!(card.endpoint, "ep");
    assert_eq!(card.version, "1");
    assert_eq!(card.tree, None);
}

#[test]
fn a_value_that_is_no_object_is_no_card() {
    assert!(PeerCard::from_card_value(&serde_json::Value::Null).is_none());
    assert!(PeerCard::from_card_value(&serde_json::Value::from(7)).is_none());
}
