use agent_share::live_state::LiveState;
use agent_share::manifest::{DirEntry, FileEntry, MountManifest};

fn entry(path: &str, size: u64) -> FileEntry {
    FileEntry {
        rel_path: path.to_owned(),
        size,
        mode: 0o644,
        mtime: 1,
    }
}

fn state(files: &[(&str, u64)]) -> LiveState<()> {
    LiveState::new(
        Vec::new(),
        files
            .iter()
            .map(|(path, size)| (entry(path, *size), ()))
            .collect(),
    )
}

fn apply(state: &mut LiveState<()>, files: &[(&str, u64)]) -> bool {
    state.apply(
        Vec::new(),
        files
            .iter()
            .map(|(path, size)| (entry(path, *size), ()))
            .collect(),
    )
}

#[test]
fn an_unchanged_tree_produces_no_change() {
    let mut tree = state(&[("a", 1), ("b", 2)]);
    assert!(!apply(&mut tree, &[("a", 1), ("b", 2)]));
}

#[test]
fn a_removed_file_leaves_its_slot_alone() {
    let mut tree = state(&[("a", 1), ("b", 2), ("c", 3)]);
    assert!(apply(&mut tree, &[("a", 1), ("c", 3)]));
    assert!(tree.slot(1).is_none(), "a tombstone serves nothing");
    assert!(tree.slot(2).is_some());
    let manifest = MountManifest::decode(tree.encoded()).expect("decode");
    assert!(manifest.files[1].is_tombstone());
    assert_eq!(manifest.files[2].rel_path, "c");
}

#[test]
fn a_new_file_appends_rather_than_sorting_in() {
    let mut tree = state(&[("m", 1)]);
    assert!(apply(&mut tree, &[("aaa", 9), ("m", 1)]));
    let manifest = MountManifest::decode(tree.encoded()).expect("decode");
    assert_eq!(manifest.files[0].rel_path, "m");
    assert_eq!(manifest.files[1].rel_path, "aaa");
    assert_eq!(manifest.files[1].size, 9);
}

#[test]
fn a_recreated_file_reclaims_its_original_index() {
    let mut tree = state(&[("a", 1), ("b", 2)]);
    assert!(apply(&mut tree, &[("a", 1)]));
    assert!(tree.slot(1).is_none());
    assert!(apply(&mut tree, &[("a", 1), ("b", 7)]));
    assert!(tree.slot(1).is_some());
    let manifest = MountManifest::decode(tree.encoded()).expect("decode");
    assert_eq!(manifest.files[1].rel_path, "b");
    assert_eq!(manifest.files[1].size, 7);
}

#[test]
fn a_grown_file_reports_its_new_size() {
    let mut tree = state(&[("a", 1)]);
    assert!(apply(&mut tree, &[("a", 4096)]));
    let manifest = MountManifest::decode(tree.encoded()).expect("decode");
    assert_eq!(manifest.files[0].size, 4096);
}

#[test]
fn the_served_manifest_keeps_tombstones_in_place() {
    let mut tree = state(&[("a", 1), ("b", 2), ("c", 3)]);
    assert!(apply(&mut tree, &[("a", 1), ("c", 3)]));
    let manifest = MountManifest::decode(tree.encoded()).expect("decode");
    assert_eq!(manifest.files.len(), 3, "the slot survives the file");
    assert!(manifest.files[1].is_tombstone());
    assert_eq!(manifest.files[2].rel_path, "c");
}

#[test]
fn duplicate_rel_paths_are_first_wins() {
    let mut tree = state(&[]);
    assert!(tree.apply(
        Vec::new(),
        vec![
            (entry("a", 1), ()),
            (entry("a", 99), ()),
            (entry("b", 2), ()),
        ],
    ));
    let manifest = MountManifest::decode(tree.encoded()).expect("decode");
    assert_eq!(manifest.files.len(), 2);
    assert_eq!(manifest.files[0].size, 1, "first listing wins");
    assert_eq!(manifest.files[1].rel_path, "b");
}

#[test]
fn live_counts_skip_tombstones() {
    let mut tree = state(&[("a", 10), ("b", 20), ("c", 30)]);
    assert_eq!(tree.live_counts(), (3, 60));
    assert!(apply(&mut tree, &[("a", 10), ("c", 30)]));
    assert_eq!(tree.live_counts(), (2, 40));
}

#[test]
fn restore_rolls_back_an_apply() {
    let mut tree = state(&[("a", 1)]);
    let snap = tree.snapshot();
    assert!(apply(&mut tree, &[("a", 1), ("b", 2)]));
    assert_eq!(tree.live_counts(), (2, 3));
    tree.restore(snap);
    assert_eq!(tree.live_counts(), (1, 1));
    assert!(tree.slot(1).is_none());
}

/// Every change moves the version on by one, and nothing else does.
#[test]
fn the_version_counts_changes() {
    let mut tree = state(&[("a", 1)]);
    let start = tree.version();
    assert!(!apply(&mut tree, &[("a", 1)]));
    assert_eq!(tree.version(), start);
    assert!(apply(&mut tree, &[("a", 2)]));
    assert_eq!(tree.version(), start + 1);
    let dirs = vec![DirEntry { rel_path: "d".to_owned(), mode: 0o755, mtime: 0 }];
    assert!(tree.apply(dirs, vec![(entry("a", 2), ())]));
    assert_eq!(tree.version(), start + 2);
}

fn dir(path: &str) -> DirEntry {
    DirEntry { rel_path: path.to_owned(), mode: 0o755, mtime: 0 }
}

/// A directory that is gone is a change, though another is listed twice.
#[test]
fn a_directory_listed_twice_does_not_hide_one_that_is_gone() {
    let mut tree = LiveState::<()>::new(vec![dir("a"), dir("b")], Vec::new());
    assert!(tree.apply(vec![dir("a"), dir("a")], Vec::new()));
    let manifest = MountManifest::decode(tree.encoded()).expect("decode");
    assert!(manifest.dirs.iter().all(|listed| listed.rel_path == "a"));
    assert!(!tree.apply(vec![dir("a"), dir("a")], Vec::new()));
}

/// Through any rescans and a restore, a payload stands exactly where a file does.
#[test]
fn a_payload_stands_where_a_file_is_listed() {
    let agree = |tree: &LiveState<()>| {
        let manifest = MountManifest::decode(tree.encoded()).expect("decode");
        for index in 0..8u32 {
            let listed = manifest.files.get(index as usize).is_some_and(|file| !file.is_tombstone());
            assert_eq!(tree.slot(index).is_some(), listed);
        }
    };
    let mut tree = state(&[("a", 1), ("b", 2)]);
    agree(&tree);
    assert!(apply(&mut tree, &[("b", 2), ("c", 3)]));
    agree(&tree);
    let snap = tree.snapshot();
    assert!(apply(&mut tree, &[("a", 5), ("d", 3)]));
    agree(&tree);
    tree.restore(snap);
    agree(&tree);
    assert!(apply(&mut tree, &[]));
    agree(&tree);
}

/// A path has one index over every listing, and a new one goes past the end.
#[test]
fn an_index_is_one_path_over_many_rescans() {
    let mut tree = state(&[("a", 1), ("b", 2)]);
    let scans: [&[(&str, u64)]; 5] =
        [&[("b", 2)], &[("c", 3)], &[("a", 9), ("d", 1)], &[], &[("d", 1), ("b", 4), ("a", 1)]];
    for files in scans {
        let before = MountManifest::decode(tree.encoded()).expect("decode");
        assert!(apply(&mut tree, files));
        let after = MountManifest::decode(tree.encoded()).expect("decode");
        assert!(after.files.len() >= before.files.len());
        for (index, path) in ["a", "b", "c", "d"].iter().enumerate() {
            if let Some(file) = after.files.get(index) {
                assert!(file.is_tombstone() || file.rel_path == *path);
            }
        }
    }
    let last = MountManifest::decode(tree.encoded()).expect("decode");
    assert_eq!(last.files[0].size, 1);
    assert_eq!(last.files[1].size, 4);
    assert!(last.files[2].is_tombstone());
    assert_eq!(last.files[3].rel_path, "d");
}
