use agent_share::digest::share_mesh_key;
use agent_share::framing::SECRET_LEN;
use agent_share::peers::identity_fingerprint;
use sha2::{Digest, Sha256};

#[test]
fn is_deterministic_and_hex() {
    let secret = [7u8; SECRET_LEN];
    let first = share_mesh_key(&secret);
    assert_eq!(first, share_mesh_key(&secret), "derivation is not stable");
    assert_eq!(first.len(), 64, "expected a hex SHA-256");
    assert!(first.chars().all(|character| character.is_ascii_hexdigit()));
}

#[test]
fn distinct_secrets_give_distinct_meshes() {
    let one = share_mesh_key(&[1u8; SECRET_LEN]);
    let two = share_mesh_key(&[2u8; SECRET_LEN]);
    assert_ne!(one, two, "two shares must not land on one mesh");
}

/// The key is carried into user-facing lines, so it must not be the secret.
#[test]
fn does_not_leak_the_secret() {
    let secret = [0xABu8; SECRET_LEN];
    let key = share_mesh_key(&secret);
    let secret_hex = secret.iter().fold(String::new(), |mut hex, byte| {
        hex.push_str(&format!("{byte:02x}"));
        hex
    });
    assert!(!key.contains(&secret_hex), "derivation echoed the secret");
}

#[test]
fn the_mesh_key_is_a_labelled_digest() {
    let mut message = b"agent-share/mesh/v1".to_vec();
    message.extend_from_slice(&[7u8; SECRET_LEN]);
    let hex = Sha256::digest(&message).iter().fold(String::new(), |mut hex, byte| {
        hex.push_str(&format!("{byte:02x}"));
        hex
    });
    assert_eq!(share_mesh_key(&[7u8; SECRET_LEN]), hex);
}

#[test]
fn the_identity_is_shown_by_the_ends_of_its_key() {
    let key = share_mesh_key(&[7u8; SECRET_LEN]);
    assert_eq!(
        identity_fingerprint(&[7u8; SECRET_LEN]),
        format!("{}…{}", &key[..8], &key[56..])
    );
}
