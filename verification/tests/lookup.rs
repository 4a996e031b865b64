use agent_share::error::WireError;
use agent_share::lookup::{LookupOpts, RelayChoice, RelayUrl};

fn round_trip(opts: &LookupOpts) -> LookupOpts {
    let mut buf = Vec::new();
    opts.encode_into(&mut buf);
    let mut pos = 0;
    let decoded = LookupOpts::decode_from(&buf, &mut pos).expect("decode");
    assert_eq!(pos, buf.len(), "the region is self-delimiting");
    decoded
}

#[test]
fn presets_round_trip() {
    for opts in [LookupOpts::loopback(), LookupOpts::public_preset()] {
        assert_eq!(round_trip(&opts), opts);
    }
}

#[test]
fn custom_ladder_preserves_order() {
    let opts = LookupOpts {
        mdns: false,
        dht: false,
        relay: RelayChoice::Custom(vec![
            RelayUrl::parse("https://a.example").expect("url"),
            RelayUrl::parse("https://b.example").expect("url"),
        ]),
    };
    assert_eq!(round_trip(&opts), opts);
}

#[test]
fn flag_bytes_are_pinned_wire_format() {
    let mut loopback = Vec::new();
    LookupOpts::loopback().encode_into(&mut loopback);
    assert_eq!(loopback, [0b0000]);

    let mut public = Vec::new();
    LookupOpts::public_preset().encode_into(&mut public);
    assert_eq!(public, [0b0111]);
}

#[test]
fn custom_bit_without_enabled_bit_is_rejected() {
    let mut pos = 0;
    assert!(LookupOpts::decode_from(&[0b1000], &mut pos).is_err());
}

#[test]
fn empty_and_overlong_ladders_are_rejected() {
    let mut empty_pos = 0;
    assert!(
        LookupOpts::decode_from(&[0b1100, 0], &mut empty_pos).is_err(),
        "a zero-length custom ladder is meaningless"
    );
    let mut overlong_pos = 0;
    assert!(
        LookupOpts::decode_from(&[0b1100, 17], &mut overlong_pos).is_err(),
        "over MAX_RELAY_LADDER"
    );
}

/// A relay URL is kept in its normal form, and what is no URL is refused.
#[test]
fn a_relay_url_is_parsed_and_normalised() {
    let url = RelayUrl::parse("https://a.example").expect("url");
    assert_eq!(url.as_str(), "https://a.example/");
    assert_eq!(RelayUrl::parse(url.as_str()).expect("again"), url);
    assert_eq!(RelayUrl::parse("not a url"), Err(WireError::BadRelayUrl));
}

#[test]
fn the_network_label_tells_a_private_share() {
    assert!(LookupOpts::loopback().is_loopback());
    assert_eq!(LookupOpts::loopback().network_label(), "private");
    assert!(!LookupOpts::public_preset().is_loopback());
    assert_eq!(LookupOpts::public_preset().network_label(), "public");
    let mdns = LookupOpts { mdns: true, dht: false, relay: RelayChoice::Disabled };
    assert_eq!(mdns.network_label(), "public");
}

#[test]
fn a_ladder_cut_short_is_refused() {
    let opts = LookupOpts {
        mdns: true,
        dht: false,
        relay: RelayChoice::Custom(vec![RelayUrl::parse("https://a.example").expect("url")]),
    };
    let mut buf = Vec::new();
    opts.encode_into(&mut buf);
    for len in 0..buf.len() {
        let mut pos = 0;
        assert!(LookupOpts::decode_from(&buf[..len], &mut pos).is_err(), "{len} bytes");
    }
}
