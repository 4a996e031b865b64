use agent_share::auth::{
    ct_eq, share_token, ShareAuth, MOUNT_TICKET_LABEL, REASON_BAD_SECRET, REASON_UNAUTHORIZED,
};
use agent_share::framing::{CLOSE_BAD_SECRET, CLOSE_UNAUTHORIZED, SECRET_LEN};

/// What a password stretches to. Stretching is a memory-hard hash that the
/// library takes as given; any fixed value stands for it here.
const HUNTER2: [u8; 32] = [0xa5; 32];
const HUNTER3: [u8; 32] = [0x5a; 32];

/// An unprotected share puts the ticket secret on the wire verbatim.
#[test]
fn no_password_is_the_secret_verbatim() {
    let secret = [7u8; SECRET_LEN];
    assert_eq!(share_token(&secret, None), secret);
}

#[test]
fn ct_eq_agrees_with_equality() {
    let secret = [9u8; SECRET_LEN];
    let token = share_token(&secret, Some(HUNTER2));
    assert!(ct_eq(&token, &share_token(&secret, Some(HUNTER2))));
    assert!(!ct_eq(&token, &secret));
    let mut last = token;
    last[31] ^= 1;
    assert!(!ct_eq(&token, &last));
}

/// The label reaches the wire.
#[test]
fn the_label_is_pinned_wire_format() {
    assert_eq!(MOUNT_TICKET_LABEL, b"agent-share/mount-ticket/v1");
}

#[test]
fn an_unprotected_share_accepts_its_ticket_secret() {
    let secret = [11u8; SECRET_LEN];
    let auth = ShareAuth::new(&secret, None);
    assert!(!auth.password_protected());
    assert!(auth.accepts(&secret));
    assert_eq!(auth.refusal_code(), CLOSE_BAD_SECRET);
    assert_eq!(auth.refusal_reason(), REASON_BAD_SECRET);
    assert_eq!(auth.refusal_reason(), b"bad secret");
}

/// Holding the ticket is not enough.
#[test]
fn a_protected_share_refuses_its_own_ticket_secret() {
    let secret = [11u8; SECRET_LEN];
    let auth = ShareAuth::new(&secret, Some(HUNTER2));
    assert!(auth.password_protected());
    assert!(!auth.accepts(&secret), "the ticket alone must not open it");
    assert!(auth.accepts(&share_token(&secret, Some(HUNTER2))));
    assert!(!auth.accepts(&share_token(&secret, Some(HUNTER3))));
    assert_eq!(auth.refusal_code(), CLOSE_UNAUTHORIZED);
    assert_eq!(auth.refusal_reason(), REASON_UNAUTHORIZED);
    assert_eq!(auth.refusal_reason(), b"unauthorized");
}

/// The check reads a prefix and does not care what follows.
#[test]
fn accepts_reads_a_prefix_and_survives_a_short_one() {
    let secret = [11u8; SECRET_LEN];
    let auth = ShareAuth::new(&secret, None);
    let mut header = secret.to_vec();
    header.push(1);
    assert!(auth.accepts(&header));
    assert!(!auth.accepts(&[]));
    assert!(!auth.accepts(&secret[..31]));
}

#[test]
fn a_mirror_can_adopt_a_derived_token() {
    let secret = [11u8; SECRET_LEN];
    let token = share_token(&secret, Some(HUNTER2));
    let auth = ShareAuth::from_token(token, true);
    assert!(auth.accepts(&token));
    assert!(!auth.accepts(&secret));
    assert_eq!(auth.token(), &token);
}

#[test]
fn debug_redacts_the_token() {
    let auth = ShareAuth::new(&[11u8; SECRET_LEN], Some(HUNTER2));
    let rendered = auth.redacted();
    assert!(rendered.contains("***"));
    assert!(
        !rendered.contains("11"),
        "the token must not print: {rendered}"
    );
    assert_eq!(rendered, "ShareAuth { token: ***, password_protected: true }");
}
