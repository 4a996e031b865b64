use agent_share::authorship::{sign_manifest, SecretKey, SignedManifest};
use agent_share::chunks::{ChunkMap, Coverage};
use agent_share::error::WireError;
use agent_share::fetch::{
    open_envelope, request_failure, stream_open_failed, unauthorized, unauthorized_close, Desk,
    FetchError, UNAUTHORIZED_PREFIX,
};
use agent_share::follow::{rewatch, Follow, Rewatch, WatchEnd};
use agent_share::framing::{CLOSE_BAD_SECRET, CLOSE_UNAUTHORIZED, WATCH_FRAME_MANIFEST};
use agent_share::locator::{check_persisted, read_locator, write_locator, Locator};
use agent_share::manifest::{FileEntry, MountManifest, ReadStatus};
use agent_share::sync::{
    file_id, hash_follows, held_in_store, wanted, HeldSet, SyncRun, SyncStep, WholeRead,
};

fn creator() -> SecretKey {
    SecretKey::from_bytes(&[7u8; 32])
}

fn tree(paths: &[&str]) -> MountManifest {
    MountManifest {
        dirs: Vec::new(),
        files: paths
            .iter()
            .map(|path| FileEntry { rel_path: (*path).to_owned(), size: 4, mode: 0o644, mtime: 0 })
            .collect(),
    }
}

fn signed(key: &SecretKey, version: u64, manifest: &MountManifest) -> SignedManifest {
    let bytes = manifest.encode();
    SignedManifest { version, signature: sign_manifest(key, version, &bytes), manifest: bytes }
}

#[test]
fn an_envelope_opens_for_its_creator_only() {
    let body = signed(&creator(), 3, &tree(&["a"])).encode();
    let key = creator().public();
    let (envelope, manifest) = open_envelope(&body, Some(&key), 3).expect("the creator's");
    assert_eq!(envelope.version, 3);
    assert_eq!(manifest, tree(&["a"]));
    assert_eq!(open_envelope(&body, Some(&key), 4).err(), Some(WireError::Rollback));
    let other = SecretKey::from_bytes(&[9; 32]);
    let forged = signed(&other, 3, &tree(&["a"])).encode();
    assert_eq!(open_envelope(&forged, Some(&key), 0).err(), Some(WireError::BadSignature));
    assert!(open_envelope(&forged, None, 0).is_ok(), "an unsigned share checks nobody");
    assert_eq!(open_envelope(&body[..8], None, 0).err(), Some(WireError::Truncated));
}

/// A stand-in cannot change the tree; the origin may.
#[test]
fn a_stand_in_keeps_its_tree() {
    let first = signed(&creator(), 1, &tree(&["a"])).encode();
    let second = signed(&creator(), 2, &tree(&["b"])).encode();
    let mut stand_in = Desk::new(Some(tree(&["a"]).fingerprint()));
    assert!(stand_in.take(&first, None).is_ok());
    assert_eq!(stand_in.take(&second, None).err(), Some(FetchError::TreeChanged));
    assert_eq!(stand_in.last_tree(), Some(tree(&["a"]).fingerprint()));
    let mut origin = Desk::new(None);
    assert!(origin.take(&first, None).is_ok());
    assert!(origin.take(&second, None).is_ok());
    assert_eq!(origin.last_tree(), Some(tree(&["b"]).fingerprint()));
    let key = creator().public();
    let mut signed_share = Desk::new(None);
    assert!(signed_share.take(&second, Some(&key)).is_ok());
    assert_eq!(
        signed_share.take(&first, Some(&key)).err(),
        Some(FetchError::Wire(WireError::Rollback))
    );
    assert_eq!(
        FetchError::TreeChanged.message(),
        "the seeder changed trees after being vetted; refusing its manifest"
    );
    assert_eq!(
        FetchError::Wire(WireError::Truncated).message(),
        "decode manifest: the bytes stop before a field they announced"
    );
}

/// An envelope fetched ahead serves the first request and no later one.
#[test]
fn what_was_fetched_ahead_is_used_once() {
    let body = signed(&creator(), 1, &tree(&["a"])).encode();
    let mut desk = Desk::new(None);
    desk.offer_ahead(body.clone());
    assert_eq!(desk.take_ahead(), Some(body.clone()));
    assert_eq!(desk.take_ahead(), None);
    assert!(desk.take(&body, None).is_ok());
    desk.offer_ahead(body);
    assert_eq!(desk.take_ahead(), None, "a late one could be older than what was seen");
}

#[test]
fn a_refused_credential_is_marked() {
    assert_eq!(UNAUTHORIZED_PREFIX, "unauthorized:");
    assert_eq!(unauthorized("no"), "unauthorized: no");
    assert!(unauthorized_close(Some(u64::from(CLOSE_UNAUTHORIZED))));
    assert!(!unauthorized_close(Some(u64::from(CLOSE_BAD_SECRET))));
    assert!(!unauthorized_close(None));
    assert_eq!(request_failure("lost", Some(2)), "unauthorized: lost");
    assert_eq!(request_failure("lost", Some(1)), "lost");
    assert_eq!(
        stream_open_failed("could not read", false, "reset"),
        "could not read: connection to the producer lost: reset"
    );
    assert!(stream_open_failed("could not read", true, "timed out")
        .starts_with("could not read: the connection to the producer expired while idle."));
}

#[test]
fn only_the_origin_is_followed_and_never_back() {
    let held = signed(&creator(), 2, &tree(&["a"]));
    assert!(Follow::begin(false, held.clone()).is_none());
    let mut follow = Follow::begin(true, held).expect("the origin");
    assert_eq!(follow.header_failed(), WatchEnd::Unsupported);
    let key = creator().public();
    let frame = |version: u64, paths: &[&str]| {
        let mut body = vec![WATCH_FRAME_MANIFEST];
        body.extend_from_slice(&signed(&creator(), version, &tree(paths)).encode());
        body
    };
    assert_eq!(follow.frame(&[], Some(&key)), Err(WatchEnd::Retryable));
    assert_eq!(follow.frame(&frame(3, &["a", "b"]), Some(&key)), Ok(tree(&["a", "b"])));
    assert_eq!(follow.frame(&frame(2, &["a"]), Some(&key)), Err(WatchEnd::Retryable));
    assert_eq!(follow.header_failed(), WatchEnd::Retryable);
    assert_eq!(rewatch(WatchEnd::Unsupported, false), Rewatch::Stop);
    assert_eq!(rewatch(WatchEnd::Retryable, true), Rewatch::Stop);
    assert_eq!(rewatch(WatchEnd::Retryable, false), Rewatch::After(3_000));
}

#[test]
fn a_locator_is_read_back() {
    let raw = write_locator(1234, "0123456789abcdef");
    assert_eq!(
        read_locator(&raw),
        Some(Locator { size: 1234, tree: "0123456789abcdef".to_owned() })
    );
    assert_eq!(read_locator("not json"), None);
    assert_eq!(read_locator("{}"), None);
    assert_eq!(read_locator("{\"size\":\"1\",\"tree\":\"x\"}"), None);
    assert_eq!(read_locator("{\"size\":1,\"tree\":7}"), None);
    assert_eq!(read_locator("{\"size\":4294967296,\"tree\":\"x\"}"), None);
}

#[test]
fn a_stored_listing_counts_only_under_its_own_tree() {
    let envelope = signed(&creator(), 2, &tree(&["a"]));
    let bytes = envelope.encode();
    let print = tree(&["a"]).fingerprint();
    assert_eq!(check_persisted(&bytes, &print), Some((envelope, tree(&["a"]))));
    assert_eq!(check_persisted(&bytes, "0000000000000000"), None);
    assert_eq!(check_persisted(&bytes[..20], &print), None);
}

#[test]
fn a_selection_takes_a_file_or_a_directory() {
    let only = |paths: &[&str]| paths.iter().map(|p| (*p).to_owned()).collect::<Vec<String>>();
    assert!(wanted(&[], "anything"));
    assert!(wanted(&only(&["docs"]), "docs/a.md"));
    assert!(!wanted(&only(&["docs/"]), "docs/a.md"), "a name is taken as it stands");
    assert!(wanted(&only(&["docs/a.md"]), "docs/a.md"));
    assert!(!wanted(&only(&["docs"]), "docs2/a.md"));
    assert!(!wanted(&only(&["a"]), "b"));
}

#[test]
fn a_whole_read_ends_exactly_at_the_size() {
    let mut whole = WholeRead::begin(300_000);
    assert_eq!(whole.wanted(), Some((0, 262_144)));
    assert!(whole.push(&vec![1; 262_144]).is_ok());
    assert_eq!(whole.wanted(), Some((262_144, 37_856)));
    assert!(whole.push(&[]).is_err(), "a file that ends early");
    assert!(whole.push(&vec![2; 37_856]).is_ok());
    assert_eq!(whole.wanted(), None);
    let bytes = whole.finish();
    assert_eq!(bytes.len(), 300_000);
    assert_eq!((bytes[262_143], bytes[262_144]), (1, 2));
    assert_eq!(WholeRead::begin(0).wanted(), None);
}

#[test]
fn a_sync_counts_what_it_did() {
    let mut files = tree(&["a", "b", "c", "d"]).files;
    files[1].rel_path = String::new();
    let only = vec!["a".to_owned(), "c".to_owned()];
    let mut run = SyncRun::begin(files.clone(), only, HeldSet::new());
    assert_eq!(run.advance(), SyncStep::Check(0, file_id(&files[0])));
    assert_eq!(run.stored(4, &[1; 32], Some([1; 32])), Ok(()));
    assert_eq!(run.advance(), SyncStep::Check(2, file_id(&files[2])));
    let refused = run.stored(4, &[1; 32], Some([2; 32])).expect_err("the roots differ");
    assert!(refused.starts_with("c does not match the origin"));
    assert_eq!(run.stored(4, &[1; 32], None), Ok(()));
    assert_eq!(run.advance(), SyncStep::Done);
    let report = run.report();
    assert_eq!((report.files, report.bytes), (2, 8));
    assert_eq!((report.verified, report.unverified, report.skipped), (1, 1, 1));
    assert_eq!(run.serving().as_deref(), Some("0,2"));
}

#[test]
fn a_file_that_is_held_is_not_fetched_again() {
    let files = tree(&["a", "b"]).files;
    let mut run = SyncRun::begin(files, vec![], HeldSet::new());
    let _ = run.advance();
    run.already_held();
    let _ = run.advance();
    run.already_held();
    assert_eq!(run.advance(), SyncStep::Done);
    assert_eq!(run.report().skipped, 2);
    assert_eq!(run.serving().as_deref(), Some("*"));
}

#[test]
fn what_a_store_holds_is_what_can_be_served() {
    let mut files = tree(&["a", "b", "c"]).files;
    files[1].rel_path = String::new();
    let held = held_in_store(&files, &[true, true, false]);
    assert_eq!(held.slots(), &[0]);
    assert_eq!(held.len(), 1);
}

#[test]
fn anything_but_success_vouches_for_nothing() {
    assert!(hash_follows(Some(ReadStatus::Success.to_byte())));
    assert!(!hash_follows(Some(ReadStatus::BadIndex.to_byte())));
    assert!(!hash_follows(None));
}

#[test]
fn chunks_tile_a_file() {
    let row = ChunkMap { root: [0; 32], size: 65_537, leaves: vec![[1; 32], [2; 32]] };
    assert_eq!(row.range_of(0), (0, 65_536));
    assert_eq!(row.range_of(1), (65_536, 65_537));
    assert_eq!(row.index_at(65_535), 0);
    assert_eq!(row.index_at(65_536), 1);
    assert_eq!(row.leaf(1), Some([2; 32]));
    assert_eq!(row.leaf(2), None);
}

#[test]
fn a_coverage_packs_one_bit_for_each_chunk() {
    let mut coverage = Coverage::empty(10);
    for position in [0, 3, 9, 42] {
        coverage.insert(position);
    }
    assert_eq!(coverage.as_bits(), vec![0b0000_1001, 0b0000_0010]);
    assert_eq!((coverage.len(), coverage.count()), (10, 3));
    assert!(coverage.contains(3) && !coverage.contains(4) && !coverage.contains(42));
    assert_eq!(Coverage::complete(3).as_bits(), vec![7]);
}

/// Slots come out each once and increasing.
#[test]
fn held_slots_come_out_in_order() {
    let mut held = HeldSet::new();
    for slot in [9, 2, 40, 2, 0] {
        held.insert(slot);
    }
    assert_eq!(held.slots(), vec![0, 2, 9, 40]);
    assert_eq!(held.len(), 4);
}
