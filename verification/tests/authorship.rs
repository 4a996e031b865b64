use agent_share::authorship::{sign_manifest, verify_manifest, PublicKey, SecretKey, SignedManifest};
use agent_share::error::WireError;

fn creator() -> SecretKey {
    SecretKey::from_bytes(&[7u8; 32])
}

fn signed(version: u64, manifest: &[u8]) -> SignedManifest {
    SignedManifest {
        version,
        signature: sign_manifest(&creator(), version, manifest),
        manifest: manifest.to_vec(),
    }
}

#[test]
fn what_the_creator_signs_verifies() {
    let manifest = b"a tree".to_vec();
    let signature = sign_manifest(&creator(), 3, &manifest);
    assert!(verify_manifest(&creator().public(), 3, &manifest, &signature).is_ok());
}

/// Somebody else's key does not pass.
#[test]
fn another_key_cannot_publish() {
    let manifest = b"a tree".to_vec();
    let impostor = SecretKey::from_bytes(&[9u8; 32]);
    let forged = sign_manifest(&impostor, 1, &manifest);
    assert!(verify_manifest(&creator().public(), 1, &manifest, &forged).is_err());
}

#[test]
fn altered_bytes_do_not_verify() {
    let signature = sign_manifest(&creator(), 1, b"a tree");
    assert!(verify_manifest(&creator().public(), 1, b"a treE", &signature).is_err());
}

/// The version is inside the signature.
#[test]
fn the_version_cannot_be_relabelled() {
    let manifest = b"a tree".to_vec();
    let signature = sign_manifest(&creator(), 1, &manifest);
    assert!(verify_manifest(&creator().public(), 2, &manifest, &signature).is_err());
}

#[test]
fn a_signed_manifest_round_trips() {
    let original = signed(42, b"the bytes");
    assert_eq!(
        SignedManifest::decode(&original.encode()).expect("decode"),
        original
    );
}

#[test]
fn a_truncated_body_is_refused() {
    assert!(SignedManifest::decode(&[0u8; 71]).is_err());
    // Exactly the prefix and no manifest is a real shape: an empty share.
    assert!(SignedManifest::decode(&[0u8; 72]).is_ok());
}

/// An old manifest that the creator signed stays valid; the version refuses it.
#[test]
fn an_older_signed_manifest_is_refused() {
    let old = signed(1, b"old tree");
    assert!(old.accept(&creator().public(), 5).is_err());
    assert!(old.accept(&creator().public(), 1).is_ok());
    // Equal is fine: the same manifest arriving twice is ordinary.
    assert!(signed(5, b"same").accept(&creator().public(), 5).is_ok());
}

/// A forged manifest at a newer version is still refused.
#[test]
fn a_forged_newer_version_is_still_refused() {
    let impostor = SecretKey::from_bytes(&[9u8; 32]);
    let forged = SignedManifest {
        version: 99,
        signature: sign_manifest(&impostor, 99, b"mine now"),
        manifest: b"mine now".to_vec(),
    };
    assert!(forged.accept(&creator().public(), 1).is_err());
}

/// An unsigned share sends a zero signature. It verifies under no key.
#[test]
fn a_zero_signature_never_verifies() {
    let unsigned = SignedManifest {
        version: 0,
        signature: [0u8; 64],
        manifest: b"a tree".to_vec(),
    };
    assert!(unsigned.accept(&creator().public(), 0).is_err());
}

#[test]
fn each_refusal_of_a_signed_manifest_has_its_name() {
    assert_eq!(signed(1, b"x").accept(&creator().public(), 2), Err(WireError::Rollback));
    let mut altered = signed(1, b"x");
    altered.manifest = b"y".to_vec();
    assert_eq!(altered.accept(&creator().public(), 0), Err(WireError::BadSignature));
    assert_eq!(SignedManifest::decode(&[0u8; 8]), Err(WireError::Truncated));
}

/// The envelope is `version ‖ signature ‖ manifest`.
#[test]
fn the_envelope_layout_is_pinned() {
    let envelope = SignedManifest { version: 0x0102, signature: [9; 64], manifest: vec![1, 2, 3] };
    let bytes = envelope.encode();
    assert_eq!(bytes[..8], [2, 1, 0, 0, 0, 0, 0, 0]);
    assert_eq!(bytes[8..72], [9; 64]);
    assert_eq!(bytes[72..], [1, 2, 3]);
}

/// A public key is a curve point, and the public half of a secret is one.
#[test]
fn only_points_are_public_keys() {
    let key = creator().public();
    let again = PublicKey::from_bytes(key.as_bytes()).expect("a point");
    assert_eq!(again, key);
    assert_ne!(key.as_bytes(), &[7u8; 32], "a key is not its secret");
    let mut refused = 0;
    for seed in 0..64u8 {
        let mut bytes = [0u8; 32];
        bytes[0] = seed;
        bytes[1] = 0xee;
        if PublicKey::from_bytes(&bytes) == Err(WireError::BadKey) {
            refused += 1;
        }
    }
    assert!(refused > 0, "some encodings are no point");
}
