use agent_share::client::PeerCard;
use agent_share::mesh::CardBook;
use agent_share::roster::{entries_from_meta, live_cards, MetaEntry, Roster};

fn card(endpoint: &str) -> PeerCard {
    PeerCard::new(
        endpoint,
        "0.1.0",
        "rust",
        "unicast",
        Some("consumer".to_owned()),
    )
}

fn entry(nickname: &str, endpoint: &str) -> MetaEntry {
    MetaEntry {
        nickname: nickname.to_owned(),
        card: card(endpoint),
    }
}

fn live(names: &[&str]) -> Vec<String> {
    names.iter().map(|name| (*name).to_owned()).collect()
}

fn object(members: Vec<(&str, serde_json::Value)>) -> serde_json::Value {
    let mut map = serde_json::Map::new();
    for (key, value) in members {
        map.insert(key.to_owned(), value);
    }
    serde_json::Value::Object(map)
}

fn meta(entries: Vec<(&str, serde_json::Value)>) -> serde_json::Value {
    object(vec![("peers", object(entries))])
}

/// The nickname is the join key, so it survives the parse.
#[test]
fn the_parse_keeps_the_name_a_card_was_published_under() {
    let doc = meta(vec![(
        "alice",
        object(vec![("card", card("ep-a").to_card_value())]),
    )]);
    let entries = entries_from_meta(&doc);
    assert_eq!(entries.len(), 1);
    assert_eq!(entries[0].nickname, "alice");
    assert_eq!(entries[0].card.endpoint, "ep-a");
}

/// Every tolerance costs one peer and never the roster.
#[test]
fn a_peer_this_build_cannot_read_costs_only_that_peer() {
    let doc = meta(vec![
        ("no-card-yet", object(vec![])),
        ("retracted", object(vec![("card", serde_json::Value::Null)])),
        (
            "gibberish",
            object(vec![(
                "card",
                object(vec![("nonsense", serde_json::Value::Bool(true))]),
            )]),
        ),
        (
            "alice",
            object(vec![("card", card("ep-a").to_card_value())]),
        ),
    ]);
    let entries = entries_from_meta(&doc);
    let names: Vec<&str> = entries
        .iter()
        .map(|entry| entry.nickname.as_str())
        .collect();
    assert_eq!(names, vec!["alice"]);
}

/// An empty or shapeless document is an empty roster.
#[test]
fn a_document_with_no_peers_yields_nothing() {
    assert!(entries_from_meta(&object(vec![])).is_empty());
    assert!(entries_from_meta(&object(vec![("peers", serde_json::Value::from(7))])).is_empty());
}

/// A card of a peer that is no longer present is not a row.
#[test]
fn a_card_whose_peer_is_gone_from_the_roster_is_dropped() {
    let entries = [entry("alice", "ep-a"), entry("ghost", "ep-gone")];
    let cards = live_cards(&entries, &live(&["alice"]));
    let endpoints: Vec<&str> = cards.iter().map(|card| card.endpoint.as_str()).collect();
    assert_eq!(endpoints, vec!["ep-a"]);
}

/// A peer that has published nothing yet is not a row either.
#[test]
fn a_roster_name_with_no_card_yields_nothing() {
    assert!(live_cards(&[], &live(&["alice"])).is_empty());
}

/// Two nicknames, one machine: one peer, whatever the order of the document.
#[test]
fn one_peer_under_two_nicknames_collapses_the_same_way_every_time() {
    let forwards = [entry("alpha", "ep-a"), entry("omega", "ep-a")];
    let backwards = [entry("omega", "ep-a"), entry("alpha", "ep-a")];
    let names = live(&["alpha", "omega"]);
    let one = live_cards(&forwards, &names);
    let other = live_cards(&backwards, &names);
    assert_eq!(one.len(), 1, "two names for one endpoint is one peer");
    assert_eq!(one, other, "the survivor must not depend on document order");
}

/// Nothing on the roster means nothing to show.
#[test]
fn an_empty_roster_shows_nobody() {
    let entries = [entry("alice", "ep-a")];
    assert!(live_cards(&entries, &[]).is_empty());
}

fn book() -> Roster {
    Roster::new(
        vec![entry("alice", "ep-a"), entry("ghost", "ep-gone")],
        live(&["alice"]),
    )
}

/// One snapshot answers both questions differently.
#[test]
fn the_two_views_disagree_about_a_peer_that_left() {
    let endpoints = |cards: Vec<PeerCard>| {
        cards
            .into_iter()
            .map(|card| card.endpoint)
            .collect::<Vec<_>>()
    };
    assert_eq!(endpoints(book().present()), vec!["ep-a"]);
    assert_eq!(endpoints(book().all()), vec!["ep-a", "ep-gone"]);
}

/// A row with a live connection keeps its name even when the peer was dropped.
#[test]
fn a_card_still_describes_a_peer_the_roster_has_dropped() {
    assert_eq!(
        book().card_for("ep-gone").map(|card| card.endpoint),
        Some("ep-gone".to_owned())
    );
    assert!(book().card_for("ep-never-seen").is_none());
}

/// A roster that was never filled answers "nobody".
#[test]
fn a_book_nobody_has_filled_in_is_empty() {
    let empty = Roster::default();
    assert!(empty.present().is_empty());
    assert!(empty.all().is_empty());
    assert!(empty.card_for("ep-a").is_none());
}

/// The smaller nickname speaks for an endpoint.
#[test]
fn the_first_name_in_order_speaks_for_an_endpoint() {
    let mut alpha = entry("alpha", "ep-a");
    alpha.card.version = "old".to_owned();
    let entries = [entry("omega", "ep-a"), alpha];
    let cards = live_cards(&entries, &live(&["alpha", "omega"]));
    assert_eq!(cards[0].version, "old");
}

/// Entries come out by name, bytewise, whatever order they were published in.
#[test]
fn entries_stand_in_the_order_of_their_names() {
    let names = ["bob", "al", "alice", "Zoe", "\u{e9}ric", "carol"];
    let doc = meta(
        names
            .iter()
            .map(|name| (*name, object(vec![("card", card("ep").to_card_value())])))
            .collect(),
    );
    let read: Vec<String> =
        entries_from_meta(&doc).into_iter().map(|entry| entry.nickname).collect();
    assert_eq!(read, vec!["Zoe", "al", "alice", "bob", "carol", "\u{e9}ric"]);
}

/// Where one endpoint stands under several names, the book keeps the greatest
/// name's card.
#[test]
fn the_book_keeps_the_card_of_the_greatest_name() {
    let mut newer = card("ep-a");
    newer.version = "0.2.0".to_owned();
    let published = |card: &PeerCard| object(vec![("card", card.to_card_value())]);
    for order in [["zed", "amy", "bob"], ["bob", "zed", "amy"]] {
        let doc = meta(
            order
                .iter()
                .map(|name| match *name {
                    "zed" => ("zed", published(&newer)),
                    "amy" => ("amy", published(&card("ep-a"))),
                    other => (other, published(&card("ep-b"))),
                })
                .collect(),
        );
        let book = CardBook::refresh_book(&doc);
        assert_eq!(book.card_for("ep-a"), Some(newer.clone()));
        assert_eq!(book.card_for("ep-b"), Some(card("ep-b")));
        assert_eq!(book.known_cards().len(), 2);
    }
}
