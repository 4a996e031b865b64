use agent_share::authorship::{SignedManifest, SIGNATURE_LEN};
use agent_share::chunks::{ChunkMap, Coverage, CHUNK_BYTES};
use agent_share::framing::MAX_READ_LEN;
use agent_share::manifest::{MountManifest, ReadStatus};
use agent_share::row_table::RowRef;
use agent_share::seed::{ReadStep, Seeder};
use std::collections::HashMap;

/// A chunk store in memory, as a peer keeps one.
struct MemStore {
    chunks: HashMap<[u8; 32], Vec<u8>>,
    maps: HashMap<[u8; 32], ChunkMap>,
}

impl MemStore {
    fn new() -> Self {
        MemStore { chunks: HashMap::new(), maps: HashMap::new() }
    }

    /// Which chunks of a root the store holds; a root it never heard of has an
    /// empty coverage.
    fn coverage(&self, root: &[u8; 32]) -> Coverage {
        match self.maps.get(root) {
            None => Coverage::empty(0),
            Some(row) => {
                let mut coverage = Coverage::empty(row.len());
                for (position, leaf) in row.leaves.iter().enumerate() {
                    if self.chunks.contains_key(leaf) {
                        coverage.insert(position);
                    }
                }
                coverage
            }
        }
    }

    fn put_map(&mut self, row: &ChunkMap) {
        self.maps.insert(row.root, row.clone());
    }

    fn put_all(&mut self, row: &ChunkMap, bytes: &[u8]) {
        for position in 0..row.len() {
            let (start, end) = row.range_of(position as u64);
            let leaf = row.leaf(position as u64).expect("leaf");
            self.chunks.insert(leaf, bytes[start as usize..end as usize].to_vec());
        }
    }
}

/// An address that depends on every byte.
fn address(bytes: &[u8], salt: u8) -> [u8; 32] {
    let mut out = [salt; 32];
    for (i, byte) in bytes.iter().enumerate() {
        let at = i % 32;
        out[at] = out[at].wrapping_mul(31).wrapping_add(*byte).wrapping_add(i as u8);
    }
    out
}

/// The row of a file.
fn build(bytes: &[u8]) -> ChunkMap {
    let leaves = bytes
        .chunks(CHUNK_BYTES as usize)
        .enumerate()
        .map(|(i, chunk)| address(chunk, i as u8))
        .collect();
    ChunkMap { root: address(bytes, 0xff), size: bytes.len() as u64, leaves }
}

fn envelope() -> Vec<u8> {
    SignedManifest {
        version: 1,
        signature: [0u8; SIGNATURE_LEN],
        manifest: MountManifest::default().encode(),
    }
    .encode()
}

/// An armed seeder serving `bytes` at slot 7.
fn armed(bytes: &[u8]) -> (Seeder, ChunkMap) {
    let row = build(bytes);
    let mut seeder = Seeder::new();
    let _ = seeder.update(envelope(), vec![(7u32, row.clone())]);
    (seeder, row)
}

/// Answers a read out of a store: the status, the bytes, and the slot reported
/// as a gap.
fn read(
    seeder: &Seeder,
    store: &MemStore,
    slot: u32,
    offset: u64,
    len: u32,
) -> (ReadStatus, Vec<u8>, Option<u32>) {
    let mut step = seeder.answer_read(slot, offset, len);
    loop {
        match step {
            ReadStep::Answer(status, bytes, hole) => return (status, bytes, hole),
            ReadStep::Fetch(address, job) => {
                step = job.resume(store.chunks.get(&address).cloned());
            }
        }
    }
}

fn answer_chunk(seeder: &Seeder, store: &MemStore, address: &[u8; 32]) -> Option<Vec<u8>> {
    if seeder.answer_chunk(address) {
        store.chunks.get(address).cloned()
    } else {
        None
    }
}

fn answer_have(seeder: &Seeder, store: &MemStore, root: &[u8; 32]) -> Option<Coverage> {
    if seeder.answer_have(root) {
        Some(store.coverage(root))
    } else {
        None
    }
}

fn complete_slots(seeder: &Seeder, store: &MemStore) -> Vec<u32> {
    let rows = seeder.row_refs();
    let coverages: Vec<Coverage> = rows.iter().map(|row| store.coverage(&row.root)).collect();
    Seeder::complete_slots(&rows, Some(&coverages))
}

fn holds(seeder: &Seeder, store: &MemStore, slot: u32) -> bool {
    let row: Option<RowRef> = seeder.row_ref(slot);
    let coverage = row.as_ref().map(|row| store.coverage(&row.root));
    Seeder::holds(row, coverage.as_ref())
}

/// Before anything is held: no manifest, no watch feed, every address declined.
#[test]
fn an_empty_seeder_refuses_everything() {
    let seeder = Seeder::new();
    let store = MemStore::new();
    assert!(seeder.manifest_envelope().is_none());
    assert!(seeder.subscribe().is_none());
    let (status, bytes, _) = read(&seeder, &store, 0, 0, 1024);
    assert_eq!(status, ReadStatus::BadIndex);
    assert!(bytes.is_empty());
    assert!(seeder.answer_chunk_map(0).is_none());
    assert!(answer_chunk(&seeder, &store, &address(b"anything", 0)).is_none());
    assert!(answer_have(&seeder, &store, &build(b"anything").root).is_none());
}

/// The length cap is enforced before any store work.
#[test]
fn an_oversized_read_is_capped() {
    let (status, _, _) = read(&Seeder::new(), &MemStore::new(), 0, 0, MAX_READ_LEN + 1);
    assert_eq!(status, ReadStatus::LenOverCap);
}

/// A root that belongs to no slot of this share is declined.
#[test]
fn a_root_outside_this_share_is_declined() {
    assert!(answer_have(&Seeder::new(), &MemStore::new(), &[9u8; 32]).is_none());
}

/// A seeder holding nothing is not armed.
#[test]
fn an_empty_seeder_is_not_armed() {
    assert!(!Seeder::new().is_armed());
    assert!(!Seeder::default().is_armed());
}

/// A gap is refused and reported, so that the claim can be taken back.
#[test]
fn a_hole_reports_the_slot_it_refused() {
    // A row whose chunks were never stored: what an eviction leaves.
    let (seeder, _) = armed(b"the bytes of a file");
    let (status, _, hole) = read(&seeder, &MemStore::new(), 7, 0, 8);
    assert_eq!(status, ReadStatus::BadIndex);
    assert_eq!(hole, Some(7), "the slot was not reported");
}

/// A slot this peer never knew is refused in silence.
#[test]
fn an_unknown_slot_is_refused_without_a_report() {
    let (seeder, _) = armed(b"the bytes of a file");
    let (status, _, hole) = read(&seeder, &MemStore::new(), 99, 0, 8);
    assert_eq!(status, ReadStatus::BadIndex);
    assert_eq!(hole, None, "an unknown slot was reported");
}

/// A store that never heard of a root has an empty coverage, which is no
/// holding.
#[test]
fn complete_slots_asks_the_store_and_not_the_row() {
    let bytes = b"the bytes of a file";
    let mut store = MemStore::new();
    let (seeder, row) = armed(bytes);
    assert!(
        complete_slots(&seeder, &store).is_empty(),
        "a row with no stored map or chunks is not a holding"
    );

    store.put_map(&row);
    store.put_all(&row, bytes);
    assert_eq!(
        complete_slots(&seeder, &store),
        vec![7],
        "a fully stored slot is servable"
    );
}

/// The narrow check agrees with the walk, and claims no slot without a row.
#[test]
fn holds_answers_for_one_slot_only() {
    let bytes = b"the bytes of a file";
    let mut store = MemStore::new();
    let (seeder, row) = armed(bytes);
    assert!(!holds(&seeder, &store, 7), "nothing is stored yet");
    assert!(!holds(&seeder, &store, 99), "a slot with no row is never held");

    store.put_map(&row);
    store.put_all(&row, bytes);
    assert!(holds(&seeder, &store, 7));
    assert_eq!(
        holds(&seeder, &store, 7),
        complete_slots(&seeder, &store).contains(&7),
        "the narrow check and the walk must agree"
    );
}

/// A peer that has fetched part of a file answers for the part it has.
#[test]
fn one_chunk_is_enough_to_seed_that_chunk() {
    // Two chunks, so "some" and "all" are genuinely different.
    let bytes = vec![7u8; CHUNK_BYTES as usize + 1];
    let mut store = MemStore::new();
    let (seeder, row) = armed(&bytes);
    assert!(row.len() >= 2, "the fixture must span more than one chunk");

    store.put_map(&row);
    let first = row.leaf(0).expect("leaf");
    let (_, end) = row.range_of(0);
    store.chunks.insert(first, bytes[..end as usize].to_vec());

    assert_eq!(
        answer_chunk(&seeder, &store, &first).as_deref(),
        Some(&bytes[..end as usize]),
        "a held chunk must be served, whole file or not"
    );
    let coverage = answer_have(&seeder, &store, &row.root).expect("in scope");
    assert_eq!(
        coverage.count(),
        1,
        "the one held chunk must be reported"
    );
    assert!(
        complete_slots(&seeder, &store).is_empty(),
        "the card must not claim a slot that cannot be read whole"
    );
    assert!(seeder.is_armed(), "a partial holder still holds something");
}

/// Before it is adopted an address is out of scope, and refused like one nobody
/// holds.
#[test]
fn a_row_is_not_servable_until_it_is_adopted() {
    let bytes = b"the bytes of a file";
    let mut store = MemStore::new();
    let (mut seeder, _) = armed(b"a different file");

    // A second file, stored but never adopted.
    let row = build(bytes);
    store.put_map(&row);
    let address = row.leaf(0).expect("leaf");
    store.chunks.insert(address, bytes.to_vec());
    assert!(
        answer_chunk(&seeder, &store, &address).is_none(),
        "an unadopted address is outside this share's scope"
    );

    seeder.adopt(9, &row);
    assert_eq!(
        answer_chunk(&seeder, &store, &address).as_deref(),
        Some(&bytes[..]),
        "adopting the row brings its chunks into scope"
    );
    assert_eq!(complete_slots(&seeder, &store), vec![9]);
}

/// A fully held file reads as the file, across chunk borders and past its end.
#[test]
fn a_held_file_reads_as_the_file() {
    let bytes: Vec<u8> = (0..CHUNK_BYTES + 100).map(|i| (i % 251) as u8).collect();
    let mut store = MemStore::new();
    let (seeder, row) = armed(&bytes);
    store.put_map(&row);
    store.put_all(&row, &bytes);
    let from = CHUNK_BYTES - 10;
    let (status, got, hole) = read(&seeder, &store, 7, from, 50);
    assert_eq!(status, ReadStatus::Success);
    assert_eq!(got, bytes[from as usize..from as usize + 50]);
    assert_eq!(hole, None);
    let (status, got, _) = read(&seeder, &store, 7, CHUNK_BYTES + 90, 1000);
    assert_eq!(status, ReadStatus::Success);
    assert_eq!(got, bytes[CHUNK_BYTES as usize + 90..]);
}

/// An update with the same envelope moves no watcher.
#[test]
fn only_a_new_envelope_makes_a_frame() {
    let mut seeder = Seeder::new();
    let frame = seeder.update(envelope(), Vec::new()).expect("a first envelope");
    assert_eq!(frame[0], 0, "a manifest frame");
    assert_eq!(frame[1..], envelope()[..]);
    assert_eq!(seeder.subscribe().expect("armed"), frame);
    assert_eq!(seeder.manifest_envelope(), Some(envelope()));
    assert!(seeder.update(envelope(), vec![(7, build(b"x"))]).is_none());
    assert_eq!(seeder.answer_chunk_map(7), Some(build(b"x")));
}

/// A row that takes another's place takes its chunks and its root out of reach.
#[test]
fn a_replaced_row_is_no_longer_answered_for() {
    let (old, new) = (b"what was there".to_vec(), b"what is there now".to_vec());
    let (mut seeder, row_a) = armed(&old);
    let row_b = build(&new);
    let mut store = MemStore::new();
    for (row, bytes) in [(&row_a, &old), (&row_b, &new)] {
        store.put_map(row);
        store.put_all(row, bytes);
    }
    assert!(answer_chunk(&seeder, &store, &row_a.leaves[0]).is_some());
    seeder.adopt(7, &row_b);
    assert!(answer_chunk(&seeder, &store, &row_a.leaves[0]).is_none());
    assert!(answer_have(&seeder, &store, &row_a.root).is_none());
    assert_eq!(answer_chunk(&seeder, &store, &row_b.leaves[0]), Some(new.clone()));
    assert!(answer_have(&seeder, &store, &row_b.root).is_some());
    // A chunk that another row reaches stays.
    seeder.adopt(8, &row_a);
    seeder.adopt(7, &row_a);
    seeder.adopt(7, &row_b);
    assert!(answer_chunk(&seeder, &store, &row_a.leaves[0]).is_some());
}

/// A read that meets a gap only in its last chunk is refused as a whole.
#[test]
fn a_gap_at_the_end_of_a_read_refuses_all_of_it() {
    let bytes: Vec<u8> = (0..CHUNK_BYTES as usize + 10).map(|i| (i % 251) as u8).collect();
    let (seeder, row) = armed(&bytes);
    let mut store = MemStore::new();
    store.put_all(&row, &bytes);
    store.chunks.remove(&row.leaves[1]);
    let (status, body, hole) = read(&seeder, &store, 7, CHUNK_BYTES - 4, 8);
    assert_eq!((status, body, hole), (ReadStatus::BadIndex, Vec::new(), Some(7)));
    let (status, body, hole) = read(&seeder, &store, 7, CHUNK_BYTES - 4, 4);
    assert_eq!(status, ReadStatus::Success);
    assert_eq!(body, bytes[CHUNK_BYTES as usize - 4..CHUNK_BYTES as usize].to_vec());
    assert_eq!(hole, None);
}
