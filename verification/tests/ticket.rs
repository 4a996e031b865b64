use agent_share::error::WireError;
use agent_share::framing::SECRET_LEN;
use agent_share::lookup::LookupOpts;
use agent_share::ticket::{
    MountTicket, TICKET_FLAG_PASSWORD, TICKET_FLAG_SIGNED, TICKET_KIND_BENCH_QUIC,
    TICKET_KIND_BENCH_RELAY, TICKET_KIND_BENCH_WEBRTC, TICKET_KIND_SHARE,
};
use iroh_base::{EndpointAddr, SecretKey};

/// The address of a ticket as the JSON it travels as.
fn addr_json() -> Vec<u8> {
    let id = SecretKey::from_bytes(&[7u8; 32]).public();
    let addr = EndpointAddr::new(id).with_ip_addr("127.0.0.1:4242".parse().expect("addr"));
    serde_json::to_vec(&addr).expect("json")
}

fn sample() -> MountTicket {
    MountTicket {
        addr: addr_json(),
        secret: [5u8; SECRET_LEN],
        lookups: LookupOpts::public_preset(),
        kind: TICKET_KIND_SHARE,
        flags: 0,
        mesh_id: None,
        author: None,
    }
}

#[test]
fn ticket_round_trips() {
    let ticket = sample();
    let decoded = MountTicket::decode(&ticket.encode()).expect("decode");
    assert_eq!(decoded.addr, ticket.addr);
    assert_eq!(decoded.secret, ticket.secret);
    assert_eq!(decoded.lookups, ticket.lookups);
    assert_eq!(decoded.kind, TICKET_KIND_SHARE);
    assert_eq!(decoded.flags, 0);
    assert!(!decoded.password_protected());
    let addr: EndpointAddr = serde_json::from_slice(&decoded.addr).expect("an address");
    assert_eq!(addr.id, SecretKey::from_bytes(&[7u8; 32]).public());
}

#[test]
fn the_password_flag_round_trips() {
    let mut ticket = sample();
    ticket.flags = TICKET_FLAG_PASSWORD;
    let decoded = MountTicket::decode(&ticket.encode()).expect("decode");
    assert_eq!(decoded.flags, TICKET_FLAG_PASSWORD);
    assert!(decoded.password_protected());
    // The secret still travels in the clear: it is the addressing, not the
    // credential.
    assert_eq!(decoded.secret, ticket.secret);
}

#[test]
fn the_mesh_id_round_trips_on_a_protected_ticket() {
    let mut ticket = sample();
    ticket.flags = TICKET_FLAG_PASSWORD;
    ticket.mesh_id = Some("some-fofoca-mesh-id".to_owned());
    let decoded = MountTicket::decode(&ticket.encode()).expect("decode");
    assert_eq!(decoded.mesh_id.as_deref(), Some("some-fofoca-mesh-id"));
}

/// A protected ticket without a mesh id still decodes.
#[test]
fn a_protected_ticket_without_a_mesh_id_still_decodes() {
    let mut payload = sample().encode();
    payload.push(TICKET_FLAG_PASSWORD);

    let decoded = MountTicket::decode(&payload).expect("a mesh-id-less ticket must decode");
    assert!(decoded.password_protected());
    assert_eq!(decoded.mesh_id, None);
}

/// An unprotected ticket never writes a mesh id, even where one was set.
#[test]
fn an_unprotected_ticket_never_writes_a_mesh_id() {
    let mut ticket = sample();
    ticket.mesh_id = Some("ignored".to_owned());
    let decoded = MountTicket::decode(&ticket.encode()).expect("decode");
    assert_eq!(decoded.mesh_id, None);
    assert_eq!(decoded.flags, 0);
}

/// An ordinary share's ticket has no flags byte.
#[test]
fn a_passwordless_ticket_is_byte_identical_to_the_pre_flags_format() {
    let ticket = sample();
    let payload = ticket.encode();

    let mut expected = Vec::new();
    expected.extend_from_slice(&ticket.secret);
    expected.push(ticket.kind);
    ticket.lookups.encode_into(&mut expected);
    let addr_json = addr_json();
    expected.extend_from_slice(
        &u16::try_from(addr_json.len())
            .expect("addr json fits u16")
            .to_le_bytes(),
    );
    expected.extend_from_slice(&addr_json);

    assert_eq!(payload, expected, "an unprotected ticket grew a byte");
}

#[test]
fn bench_kinds_round_trip() {
    for kind in [
        TICKET_KIND_BENCH_WEBRTC,
        TICKET_KIND_BENCH_RELAY,
        TICKET_KIND_BENCH_QUIC,
    ] {
        let mut ticket = sample();
        ticket.kind = kind;
        let decoded = MountTicket::decode(&ticket.encode()).expect("decode");
        assert_eq!(decoded.kind, kind);
    }
}

/// Bytes behind the flags are ignored rather than fatal.
#[test]
fn a_field_appended_after_the_flags_is_ignored() {
    let ticket = sample();
    let mut payload = ticket.encode();
    payload.push(0);
    payload.extend_from_slice(b"a future field this build knows nothing about");

    let decoded = MountTicket::decode(&payload).expect("trailing bytes must not be fatal");
    assert_eq!(decoded.addr, ticket.addr);
    assert_eq!(decoded.secret, ticket.secret);
    assert_eq!(decoded.flags, 0);
}

/// A ticket without the address's length fails rather than misparses.
#[test]
fn a_ticket_in_the_retired_layout_is_rejected() {
    let ticket = sample();
    // secret ‖ kind ‖ lookups ‖ addr-json, no length.
    let mut payload = Vec::new();
    payload.extend_from_slice(&ticket.secret);
    payload.push(ticket.kind);
    ticket.lookups.encode_into(&mut payload);
    payload.extend_from_slice(&addr_json());

    assert!(
        MountTicket::decode(&payload).is_err(),
        "a retired-layout ticket must be rejected outright"
    );
}

#[test]
fn rejects_a_truncated_payload() {
    assert!(MountTicket::decode(&[0u8; 8]).is_err());
}

#[test]
fn a_signed_ticket_carries_its_authorship_key() {
    let mut ticket = sample();
    ticket.flags = TICKET_FLAG_SIGNED;
    ticket.author = Some([3u8; 32]);
    let decoded = MountTicket::decode(&ticket.encode()).expect("decode");
    assert_eq!(decoded.flags, TICKET_FLAG_SIGNED);
    assert_eq!(decoded.author, Some([3u8; 32]));
}

/// The key sits past the mesh id, whose length moves it.
#[test]
fn a_signed_and_protected_ticket_carries_both_fields() {
    let mut ticket = sample();
    ticket.flags = TICKET_FLAG_PASSWORD | TICKET_FLAG_SIGNED;
    ticket.mesh_id = Some("a-fairly-long-mesh-identifier-here".to_owned());
    ticket.author = Some([9u8; 32]);
    let decoded = MountTicket::decode(&ticket.encode()).expect("decode");
    assert_eq!(
        decoded.mesh_id.as_deref(),
        Some("a-fairly-long-mesh-identifier-here")
    );
    assert_eq!(decoded.author, Some([9u8; 32]));
}

/// An unsigned ticket pays nothing for the field.
#[test]
fn an_unsigned_ticket_is_unchanged() {
    let ticket = sample();
    let decoded = MountTicket::decode(&ticket.encode()).expect("decode");
    assert_eq!(decoded.author, None);
    assert_eq!(decoded.flags, 0);
    // A protected-but-unsigned ticket must not grow the field either.
    let mut protected = sample();
    protected.flags = TICKET_FLAG_PASSWORD;
    protected.mesh_id = Some("mesh".to_owned());
    let protected = MountTicket::decode(&protected.encode()).expect("decode");
    assert_eq!(protected.author, None);
}

/// A ticket that says it is signed and stops before the key has none.
#[test]
fn a_signed_ticket_missing_its_key_decodes_as_absent() {
    let mut ticket = sample();
    ticket.flags = TICKET_FLAG_SIGNED;
    ticket.author = None;
    let decoded = MountTicket::decode(&ticket.encode()).expect("decode");
    assert_eq!(decoded.author, None);
}

#[test]
fn each_refusal_of_a_ticket_has_its_name() {
    assert_eq!(MountTicket::decode(&[0u8; 8]), Err(WireError::Truncated));
    let mut broken = sample();
    broken.addr = b"{not json".to_vec();
    assert_eq!(MountTicket::decode(&broken.encode()), Err(WireError::BadAddress));
}

/// A signed share that no password protects has a key and no mesh id.
#[test]
fn a_signed_unprotected_ticket_never_writes_a_mesh_id() {
    let id = SecretKey::from_bytes(&[7u8; 32]).public();
    let mut ticket = sample();
    ticket.addr = serde_json::to_vec(&EndpointAddr::new(id)).expect("json");
    ticket.flags = TICKET_FLAG_SIGNED;
    ticket.mesh_id = Some("ignored".to_owned());
    ticket.author = Some([3u8; 32]);
    let decoded = MountTicket::decode(&ticket.encode()).expect("decode");
    assert_eq!(decoded.mesh_id, None);
    assert_eq!(decoded.author, Some([3u8; 32]));
    ticket.mesh_id = None;
    assert_eq!(decoded.encode(), ticket.encode());
}

/// A mesh id that came with an unprotected ticket is not read, and the key
/// behind it still is.
#[test]
fn a_mesh_id_beside_no_password_is_stepped_over() {
    let mut ticket = sample();
    ticket.flags = TICKET_FLAG_PASSWORD | TICKET_FLAG_SIGNED;
    ticket.mesh_id = Some("mesh".to_owned());
    ticket.author = Some([9u8; 32]);
    let mut bytes = ticket.encode();
    let at = bytes.len() - 32 - 4 - 2 - 1;
    assert_eq!(bytes[at], TICKET_FLAG_PASSWORD | TICKET_FLAG_SIGNED);
    bytes[at] = TICKET_FLAG_SIGNED;
    let decoded = MountTicket::decode(&bytes).expect("decode");
    assert_eq!(decoded.mesh_id, None);
    assert_eq!(decoded.author, Some([9u8; 32]));
}
