use agent_share::authorship::{sign_manifest, PublicKey, SecretKey, SignedManifest, SIGNATURE_LEN};
use agent_share::delta::ManifestDelta;
use agent_share::digest::manifest_fingerprint;
use agent_share::error::WireError;
use agent_share::framing::{ManifestSince, WATCH_FRAME_DELTA, WATCH_FRAME_MANIFEST};
use agent_share::manifest::{DirEntry, FileEntry, MountManifest, ReadStatus};
use agent_share::update::{apply_since, apply_watch_frame, frame_can_apply, rebuild};
use sha2::{Digest, Sha256};

/// The share's creator, and somebody who wishes they were.
fn creator() -> SecretKey {
    SecretKey::from_bytes(&[7u8; 32])
}

fn impostor() -> SecretKey {
    SecretKey::from_bytes(&[9u8; 32])
}

fn tree(paths: &[&str]) -> MountManifest {
    MountManifest {
        dirs: Vec::new(),
        files: paths
            .iter()
            .map(|path| FileEntry {
                rel_path: (*path).to_owned(),
                size: 1,
                mode: 0o644,
                mtime: 0,
            })
            .collect(),
    }
}

/// A `WATCH_FRAME_MANIFEST` payload as a producer emits it.
fn envelope(key: &SecretKey, version: u64, manifest: &MountManifest) -> Vec<u8> {
    let bytes = manifest.encode();
    SignedManifest {
        version,
        signature: sign_manifest(key, version, &bytes),
        manifest: bytes,
    }
    .encode()
}

fn held_at(version: u64, manifest: &MountManifest) -> SignedManifest {
    let bytes = manifest.encode();
    SignedManifest {
        version,
        signature: sign_manifest(&creator(), version, &bytes),
        manifest: bytes,
    }
}

/// A frame the creator signed is taken no matter who relayed it.
#[test]
fn a_frame_the_creator_signed_is_accepted() {
    let mut held = held_at(1, &tree(&["a"]));
    let next = tree(&["a", "b"]);
    let applied = apply_watch_frame(
        &mut held,
        WATCH_FRAME_MANIFEST,
        &envelope(&creator(), 2, &next),
        Some(&creator().public()),
    )
    .expect("the creator's own frame");
    assert_eq!(applied.files.len(), 2);
    assert_eq!(held.version, 2, "the held version moves with it");
}

/// Relaying is allowed, authoring is not.
#[test]
fn a_frame_signed_by_anyone_else_is_refused() {
    let start = tree(&["a"]);
    let mut held = held_at(1, &start);
    let forged = tree(&["a", "evil"]);
    assert!(
        apply_watch_frame(
            &mut held,
            WATCH_FRAME_MANIFEST,
            &envelope(&impostor(), 2, &forged),
            Some(&creator().public()),
        )
        .is_err(),
        "a seeder must not be able to author a version"
    );
    assert_eq!(
        held.version, 1,
        "a refused frame leaves the held tree alone"
    );
    assert_eq!(held.manifest, start.encode());
}

/// A real, creator-signed older manifest is still refused.
#[test]
fn a_replayed_older_version_is_refused() {
    let mut held = held_at(5, &tree(&["a", "b"]));
    assert!(apply_watch_frame(
        &mut held,
        WATCH_FRAME_MANIFEST,
        &envelope(&creator(), 4, &tree(&["a"])),
        Some(&creator().public()),
    )
    .is_err());
    assert_eq!(held.version, 5);
}

/// The same manifest arriving twice is ordinary.
#[test]
fn the_same_version_may_arrive_twice() {
    let same = tree(&["a"]);
    let mut held = held_at(3, &same);
    assert!(apply_watch_frame(
        &mut held,
        WATCH_FRAME_MANIFEST,
        &envelope(&creator(), 3, &same),
        Some(&creator().public()),
    )
    .is_ok());
}

/// Deltas carry the signature too.
#[test]
fn a_signed_delta_frame_is_verified_against_its_result() {
    let start = tree(&["a"]);
    let mut held = held_at(1, &start);

    let mut rebuilt = start.clone();
    let delta = ManifestDelta {
        dirs_upserted: Vec::new(),
        dirs_removed: Vec::new(),
        files_upserted: vec![(
            1,
            FileEntry {
                rel_path: "b".to_owned(),
                size: 1,
                mode: 0o644,
                mtime: 0,
            },
        )],
        files_removed: Vec::new(),
    };
    rebuilt.apply(&delta);

    let since = ManifestSince {
        target_version: 2,
        signature: sign_manifest(&creator(), 2, &rebuilt.encode()),
        deltas: vec![delta.encode()],
    };
    let applied = apply_watch_frame(
        &mut held,
        WATCH_FRAME_DELTA,
        &since.encode(),
        Some(&creator().public()),
    )
    .expect("a delta the creator vouched for");
    assert_eq!(applied.files.len(), 2);
    assert_eq!(held.version, 2);
}

/// The reconstruction is checked, not just the arithmetic.
#[test]
fn a_delta_that_rebuilds_something_unsigned_is_refused() {
    let mut held = held_at(1, &tree(&["a"]));
    let since = ManifestSince {
        target_version: 2,
        signature: sign_manifest(&creator(), 2, &tree(&["a", "different"]).encode()),
        deltas: vec![ManifestDelta {
            dirs_upserted: Vec::new(),
            dirs_removed: Vec::new(),
            files_upserted: vec![(
                1,
                FileEntry {
                    rel_path: "b".to_owned(),
                    size: 1,
                    mode: 0o644,
                    mtime: 0,
                },
            )],
            files_removed: Vec::new(),
        }
        .encode()],
    };
    assert!(apply_watch_frame(
        &mut held,
        WATCH_FRAME_DELTA,
        &since.encode(),
        Some(&creator().public()),
    )
    .is_err());
    assert_eq!(held.version, 1);
}

/// An unsigned share has no creator to check against; the version rule applies.
#[test]
fn an_unsigned_share_still_refuses_a_rollback() {
    let mut held = SignedManifest {
        version: 4,
        signature: [0u8; SIGNATURE_LEN],
        manifest: tree(&["a"]).encode(),
    };
    let older = SignedManifest {
        version: 3,
        signature: [0u8; SIGNATURE_LEN],
        manifest: tree(&["b"]).encode(),
    }
    .encode();
    assert!(apply_watch_frame(&mut held, WATCH_FRAME_MANIFEST, &older, None).is_err());
}

#[test]
fn an_unknown_frame_kind_is_refused() {
    let mut held = held_at(1, &tree(&["a"]));
    assert!(apply_watch_frame(&mut held, 99, b"whatever", Some(&creator().public())).is_err());
}

fn sample_delta() -> ManifestDelta {
    ManifestDelta {
        dirs_upserted: vec![DirEntry {
            rel_path: "docs/new".to_owned(),
            mode: 0o755,
            mtime: 1_700_000_002,
        }],
        dirs_removed: vec!["docs/empty".to_owned()],
        files_upserted: vec![
            (
                0,
                FileEntry {
                    rel_path: "README.md".to_owned(),
                    size: 99,
                    mode: 0o644,
                    mtime: 1_700_000_003,
                },
            ),
            (
                2,
                FileEntry {
                    rel_path: "docs/new/added.md".to_owned(),
                    size: 7,
                    mode: 0o600,
                    mtime: -1,
                },
            ),
        ],
        files_removed: vec![1, u32::MAX],
    }
}

#[test]
fn applying_a_delta_keeps_indices_put() {
    let mut manifest = sample();
    // Drop file 0, change file 1, add a new one at slot 2.
    manifest.apply(&ManifestDelta {
        dirs_upserted: Vec::new(),
        dirs_removed: vec!["docs/empty".to_owned()],
        files_upserted: vec![
            (
                1,
                FileEntry {
                    rel_path: "docs/guide.md".to_owned(),
                    size: 500,
                    mode: 0o600,
                    mtime: 9,
                },
            ),
            (
                2,
                FileEntry {
                    rel_path: "new.txt".to_owned(),
                    size: 3,
                    mode: 0o644,
                    mtime: 9,
                },
            ),
        ],
        files_removed: vec![0],
    });
    assert!(
        manifest.files[0].is_tombstone(),
        "the removed slot survives"
    );
    assert_eq!(manifest.files[1].size, 500);
    assert_eq!(manifest.files[2].rel_path, "new.txt");
    assert_eq!(manifest.dirs.len(), 1, "docs/empty is gone");
    assert_eq!(manifest.dirs[0].rel_path, "docs");
}

#[test]
fn an_upsert_past_the_end_pads_with_tombstones() {
    let mut manifest = sample();
    manifest.apply(&ManifestDelta {
        files_upserted: vec![(
            5,
            FileEntry {
                rel_path: "far.txt".to_owned(),
                size: 1,
                mode: 0o644,
                mtime: 0,
            },
        )],
        ..ManifestDelta::default()
    });
    assert_eq!(manifest.files.len(), 6);
    assert!(manifest.files[3].is_tombstone());
    assert_eq!(manifest.files[5].rel_path, "far.txt");
}

#[test]
fn delta_round_trips() {
    let delta = sample_delta();
    assert_eq!(
        ManifestDelta::decode(&delta.encode()).expect("decode"),
        delta
    );
}

#[test]
fn empty_delta_round_trips_and_reports_empty() {
    let delta = ManifestDelta::default();
    assert!(delta.is_empty());
    assert_eq!(
        ManifestDelta::decode(&delta.encode()).expect("decode"),
        delta
    );
    assert!(!sample_delta().is_empty());
}

#[test]
fn truncated_delta_is_rejected() {
    let encoded = sample_delta().encode();
    for len in 0..encoded.len() {
        assert!(
            ManifestDelta::decode(&encoded[..len]).is_err(),
            "prefix of {len} bytes must not decode"
        );
    }
}

#[test]
fn delta_with_trailing_bytes_is_rejected() {
    let mut encoded = sample_delta().encode();
    encoded.push(0);
    assert!(ManifestDelta::decode(&encoded).is_err());
}

fn sample() -> MountManifest {
    MountManifest {
        dirs: vec![
            DirEntry {
                rel_path: "docs".to_owned(),
                mode: 0o755,
                mtime: 1_700_000_000,
            },
            DirEntry {
                rel_path: "docs/empty".to_owned(),
                mode: 0o700,
                mtime: 0,
            },
        ],
        files: vec![
            FileEntry {
                rel_path: "README.md".to_owned(),
                size: 42,
                mode: 0o644,
                mtime: 1_700_000_001,
            },
            FileEntry {
                rel_path: "docs/guide.md".to_owned(),
                size: 0,
                mode: 0o600,
                mtime: -1,
            },
        ],
    }
}

#[test]
fn manifest_round_trips() {
    let manifest = sample();
    let decoded = MountManifest::decode(&manifest.encode()).expect("decode");
    assert_eq!(decoded, manifest);
}

/// A consumer that re-encodes gets the bytes the producer served.
#[test]
fn encoding_is_canonical() {
    let bytes = sample().encode();
    let reencoded = MountManifest::decode(&bytes).expect("decode").encode();
    assert_eq!(bytes, reencoded, "decode then encode must be byte-exact");
}

#[test]
fn a_fingerprint_is_short_stable_hex() {
    let manifest = sample();
    let print = manifest.fingerprint();
    assert_eq!(print, manifest.fingerprint(), "not stable");
    assert_eq!(
        print.len(),
        16,
        "16 hex chars keeps the card inside a frame"
    );
    assert!(print.chars().all(|ch| ch.is_ascii_hexdigit()));
}

/// A caught-up manifest carries the creator's signature, and a tampered chain
/// does not.
#[test]
fn a_delta_chain_is_only_taken_when_it_rebuilds_what_the_creator_signed() {
    let creator = SecretKey::from_bytes(&[9u8; 32]);
    let author: PublicKey = creator.public();

    let held_manifest = sample();
    let held_bytes = held_manifest.encode();
    let held = SignedManifest {
        version: 4,
        signature: sign_manifest(&creator, 4, &held_bytes),
        manifest: held_bytes,
    };

    // What the producer would publish next: one file's size changes.
    let delta = ManifestDelta {
        files_upserted: vec![(
            0,
            FileEntry {
                rel_path: sample().files[0].rel_path.clone(),
                size: 4242,
                mode: 0o644,
                mtime: 1_700_000_009,
            },
        )],
        ..ManifestDelta::default()
    };
    let mut ahead = sample();
    ahead.apply(&delta);
    let ahead_bytes = ahead.encode();

    let answer = ManifestSince {
        target_version: 5,
        signature: sign_manifest(&creator, 5, &ahead_bytes),
        deltas: vec![delta.encode()],
    };
    let caught_up = apply_since(&held, &answer, Some(&author)).expect("catch up");
    assert_eq!(caught_up.version, 5);
    assert_eq!(
        caught_up.manifest, ahead_bytes,
        "the reconstruction must be byte-exact, or the signature is meaningless"
    );

    // A relay swaps in a delta of its own, keeping the creator's signature.
    let tampered = ManifestSince {
        deltas: vec![ManifestDelta {
            files_removed: vec![0],
            ..ManifestDelta::default()
        }
        .encode()],
        ..answer.clone()
    };
    assert!(
        apply_since(&held, &tampered, Some(&author)).is_err(),
        "a chain that rebuilds something else must not be believed"
    );

    // And a producer replaying an older version loses to what we hold.
    let backwards = ManifestSince {
        target_version: 3,
        ..answer
    };
    assert!(
        apply_since(&held, &backwards, Some(&author)).is_err(),
        "rolling a consumer backwards must be refused"
    );
}

/// The signed envelope is not what is fingerprinted.
#[test]
fn the_envelope_is_not_the_fingerprint_domain() {
    let manifest = sample().encode();
    let envelope = SignedManifest {
        version: 7,
        signature: [0xab; SIGNATURE_LEN],
        manifest: manifest.clone(),
    }
    .encode();
    assert_ne!(
        manifest_fingerprint(&envelope),
        manifest_fingerprint(&manifest),
        "fingerprinting the envelope must not silently pass for the tree"
    );
}

/// The producer fingerprints wire bytes, the consumer a re-encode.
#[test]
fn both_paths_to_a_fingerprint_agree() {
    let bytes = sample().encode();
    assert_eq!(
        manifest_fingerprint(&bytes),
        MountManifest::decode(&bytes).expect("decode").fingerprint()
    );
}

/// A tree that changed fingerprints differently.
#[test]
fn a_changed_tree_changes_its_fingerprint() {
    let base = sample();
    let mut grown = base.clone();
    grown.files[0].size += 1;
    assert_ne!(base.fingerprint(), grown.fingerprint(), "a resized file");

    let mut renamed = base.clone();
    renamed.files[0].rel_path = "renamed.txt".to_owned();
    assert_ne!(base.fingerprint(), renamed.fingerprint(), "a renamed file");

    let mut reordered = base.clone();
    reordered.files.swap(0, 1);
    assert_ne!(
        base.fingerprint(),
        reordered.fingerprint(),
        "order is the READ address, so a reorder is a different tree"
    );
}

/// The fingerprint is not a bare SHA-256 of the bytes.
#[test]
fn the_fingerprint_is_domain_separated() {
    let bytes = sample().encode();
    let bare = Sha256::digest(&bytes);
    let mut bare_hex = String::new();
    for byte in bare.iter().take(8) {
        bare_hex.push_str(&format!("{byte:02x}"));
    }
    assert_ne!(manifest_fingerprint(&bytes), bare_hex);
}

/// It is the start of a SHA-256 of the label and the bytes.
#[test]
fn the_fingerprint_is_a_labelled_digest() {
    let bytes = sample().encode();
    let mut message = b"agent-share/tree/v1".to_vec();
    message.extend_from_slice(&bytes);
    let mut hex = String::new();
    for byte in Sha256::digest(&message).iter().take(8) {
        hex.push_str(&format!("{byte:02x}"));
    }
    assert_eq!(manifest_fingerprint(&bytes), hex);
}

#[test]
fn truncated_manifest_is_rejected() {
    let encoded = sample().encode();
    for len in 0..encoded.len() {
        assert!(
            MountManifest::decode(&encoded[..len]).is_err(),
            "prefix of {len} bytes must not decode"
        );
    }
}

#[test]
fn trailing_bytes_are_rejected() {
    let mut encoded = sample().encode();
    encoded.push(0);
    assert!(MountManifest::decode(&encoded).is_err());
}

#[test]
fn hostile_count_fails_without_allocating() {
    // Claims u32::MAX dirs but carries none.
    let bytes = u32::MAX.to_le_bytes();
    assert!(MountManifest::decode(&bytes).is_err());
}

#[test]
fn read_status_round_trips() {
    for status in [
        ReadStatus::Success,
        ReadStatus::BadIndex,
        ReadStatus::Io,
        ReadStatus::LenOverCap,
    ] {
        assert_eq!(
            ReadStatus::from_byte(status.to_byte()).expect("round trip"),
            status
        );
    }
    assert!(ReadStatus::from_byte(9).is_err());
}

/// What a listing needs of its paths and counts is checked before it is encoded.
#[test]
fn a_listing_fits_unless_a_path_is_too_long() {
    assert!(sample().fits());
    let mut long = sample();
    long.files[0].rel_path = "x".repeat(65_536);
    assert!(!long.fits());
    long.files[0].rel_path = "x".repeat(65_535);
    assert!(long.fits());
}

#[test]
fn an_upsert_at_the_last_slot_is_not_addressable() {
    assert!(sample_delta().is_addressable());
    let mut delta = sample_delta();
    delta.files_upserted[0].0 = u32::MAX;
    assert_eq!(delta.is_addressable(), (u32::MAX as usize) < usize::MAX);
}

#[test]
fn each_refusal_of_a_listing_has_its_name() {
    let encoded = sample().encode();
    assert_eq!(MountManifest::decode(&encoded[..encoded.len() - 1]), Err(WireError::Truncated));
    let mut longer = encoded.clone();
    longer.push(0);
    assert_eq!(MountManifest::decode(&longer), Err(WireError::TrailingBytes));
    // The first directory's path is four bytes at offset six.
    let mut broken = encoded;
    broken[6] = 0xff;
    assert_eq!(MountManifest::decode(&broken), Err(WireError::NotUtf8));
    assert_eq!(ReadStatus::from_byte(9), Err(WireError::UnknownTag));
}

/// A chain of deltas rebuilds the listing it was made from.
#[test]
fn a_chain_rebuilds_step_by_step() {
    let held = held_at(1, &tree(&["a"]));
    let step = |slot: u32, path: &str| ManifestDelta {
        files_upserted: vec![(slot, tree(&[path]).files[0].clone())],
        ..ManifestDelta::default()
    };
    let answer = ManifestSince {
        target_version: 3,
        signature: [0; 64],
        deltas: vec![step(1, "b").encode(), step(2, "c").encode()],
    };
    assert_eq!(rebuild(&held, &answer).expect("rebuild"), tree(&["a", "b", "c"]));
    let payload = answer.encode();
    assert!(frame_can_apply(&held, WATCH_FRAME_DELTA, &payload));
    let mut unsigned = held.clone();
    let applied = apply_watch_frame(&mut unsigned, WATCH_FRAME_DELTA, &payload, None)
        .expect("nobody to check against");
    assert_eq!(applied, tree(&["a", "b", "c"]));
    assert_eq!(unsigned.version, 3);
}

/// A delta that is applied again changes nothing more.
#[test]
fn applying_a_delta_twice_is_applying_it_once() {
    let mut once = sample();
    once.apply(&ManifestDelta { files_removed: vec![1], ..sample_delta() });
    let mut twice = once.clone();
    twice.apply(&ManifestDelta { files_removed: vec![1], ..sample_delta() });
    assert_eq!(twice, once);
    assert_eq!(once.files.len(), 3);
}
