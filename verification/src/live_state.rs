//! An index-stable live tree.
//!
//! The file table only grows: a file that vanishes leaves a tombstone at its
//! index, a file that comes back takes its old index again, and so a read
//! addressed by index never lands on another file.
use crate::delta::last_at;
use crate::error::WireError;
use crate::manifest::{
    dir_views, file_views, law_manifest_round_trip, manifest_bytes, manifest_fits, manifest_of, tomb,
    DirEntry, DirView, FileEntry, FileView, ManifestView, MountManifest,
};
use vstd::hash_map::StringHashMap;
use vstd::hash_set::StringHashSet;
use vstd::prelude::*;

verus! {

/// Append-only file table with tombstones; directories are replaced wholesale.
pub struct LiveState<T> {
    dirs: Vec<DirEntry>,
    /// Wire order; tombstones stay in place.
    files: Vec<FileEntry>,
    /// Aligned with `files`; `None` where tombstoned.
    slots: Vec<Option<T>>,
    /// The path each index was assigned to, kept when the file is gone.
    names: Vec<String>,
    /// Where each path ever assigned stands.
    index_of: StringHashMap<usize>,
    /// Re-encoded once per change.
    encoded: Vec<u8>,
    /// Raised once per change; the first is 1.
    version: u64,
}

pub struct LiveView<T> {
    pub dirs: Seq<DirView>,
    pub files: Seq<FileView>,
    pub slots: Seq<Option<T>>,
    pub names: Seq<Seq<char>>,
    pub encoded: Seq<u8>,
    pub version: u64,
}

/// An owned copy of a [`LiveState`], to go back to.
pub struct LiveStateSnapshot<T> {
    dirs: Vec<DirEntry>,
    files: Vec<FileEntry>,
    slots: Vec<Option<T>>,
    names: Vec<String>,
    index_of: StringHashMap<usize>,
    encoded: Vec<u8>,
    version: u64,
}

pub open spec fn name_views(s: Seq<String>) -> Seq<Seq<char>> {
    Seq::new(s.len(), |i: int| s[i]@)
}

impl<T> View for LiveState<T> {
    type V = LiveView<T>;

    closed spec fn view(&self) -> LiveView<T> {
        LiveView {
            dirs: dir_views(self.dirs@),
            files: file_views(self.files@),
            slots: self.slots@,
            names: name_views(self.names@),
            encoded: self.encoded@,
            version: self.version,
        }
    }
}

impl<T> View for LiveStateSnapshot<T> {
    type V = LiveView<T>;

    closed spec fn view(&self) -> LiveView<T> {
        LiveView {
            dirs: dir_views(self.dirs@),
            files: file_views(self.files@),
            slots: self.slots@,
            names: name_views(self.names@),
            encoded: self.encoded@,
            version: self.version,
        }
    }
}

/// The index a path was last assigned.
pub open spec fn index_named(names: Seq<Seq<char>>, path: Seq<char>) -> Option<int>
    decreases names.len(),
{
    if names.len() == 0 {
        None
    } else if names.last() == path {
        Some(names.len() - 1)
    } else {
        index_named(names.drop_last(), path)
    }
}

/// What holds of every live tree: one entry, one payload slot and one name per
/// index, a file that is there under its index's name, and an encoding that is
/// the listing's.
pub open spec fn live_wf<T>(v: LiveView<T>) -> bool {
    &&& v.slots.len() == v.files.len()
    &&& v.names.len() == v.files.len()
    &&& forall|i: int|
        0 <= i < v.files.len() && (#[trigger] v.files[i]).rel_path.len() > 0
            ==> v.files[i].rel_path == v.names[i]
    &&& manifest_fits(ManifestView { dirs: v.dirs, files: v.files })
    &&& v.encoded == manifest_bytes(ManifestView { dirs: v.dirs, files: v.files })
}

/// No path has two indices.
pub open spec fn names_distinct(names: Seq<Seq<char>>) -> bool {
    forall|i: int, j: int|
        0 <= i < j < names.len() ==> #[trigger] names[i] != #[trigger] names[j]
}

/// What holds of a live tree whose scans named no file by the empty path, and
/// whose first named none twice: every index has a path of its own, and a payload
/// stands exactly where a file does.
pub open spec fn live_exact<T>(v: LiveView<T>) -> bool {
    &&& live_wf(v)
    &&& names_distinct(v.names)
    &&& forall|i: int| 0 <= i < v.names.len() ==> (#[trigger] v.names[i]).len() > 0
    &&& forall|i: int|
        0 <= i < v.files.len() ==> (#[trigger] v.slots[i] is Some <==> v.files[i].rel_path.len()
            > 0)
}

/// Whether every file of a scan has a path.
pub open spec fn paths_given<T>(files: Seq<(FileView, T)>) -> bool {
    forall|i: int| 0 <= i < files.len() ==> (#[trigger] files[i]).0.rel_path.len() > 0
}

/// Whether no two files of a scan have one path.
pub open spec fn paths_distinct<T>(files: Seq<(FileView, T)>) -> bool {
    forall|i: int, j: int|
        0 <= i < j < files.len() ==> (#[trigger] files[i]).0.rel_path != (
        #[trigger] files[j]).0.rel_path
}

/// Whether encoded bytes are a listing with a file at an index.
pub open spec fn lists_file(encoded: Seq<u8>, i: int) -> bool {
    manifest_of(encoded) matches Ok(m) && 0 <= i < m.files.len() && m.files[i].rel_path.len() > 0
}

spec fn map_agrees(index_of: Map<Seq<char>, usize>, names: Seq<Seq<char>>) -> bool {
    forall|p: Seq<char>|
        {
            &&& #[trigger] index_of.contains_key(p) == index_named(names, p) is Some
            &&& index_of.contains_key(p) ==> index_named(names, p) == Some(index_of[p] as int)
        }
}

/// Files and their payloads, as a scan hands them over.
pub open spec fn given_views<T>(files: Seq<(FileEntry, T)>) -> Seq<(FileView, T)> {
    Seq::new(files.len(), |i: int| (files[i].0@, files[i].1))
}

pub open spec fn names_path<T>(files: Seq<(FileView, T)>, path: Seq<char>) -> bool {
    exists|i: int| 0 <= i < files.len() && (#[trigger] files[i]).0.rel_path == path
}

/// The files without those whose path came before.
pub open spec fn first_wins<T>(files: Seq<(FileView, T)>) -> Seq<(FileView, T)>
    decreases files.len(),
{
    if files.len() == 0 {
        Seq::empty()
    } else {
        let front = first_wins(files.drop_last());
        if names_path(files.drop_last(), files.last().0.rel_path) {
            front
        } else {
            front.push(files.last())
        }
    }
}

/// Whether a directory listing holds every directory of another as it is given
/// there.
pub open spec fn dirs_within(dirs: Seq<DirView>, others: Seq<DirView>) -> bool {
    forall|i: int| 0 <= i < others.len() ==> dir_is(dirs, #[trigger] others[i])
}

/// Whether two directory listings differ: in number, or in what one of them says
/// of a path that the other names.
pub open spec fn dirs_changed(previous: Seq<DirView>, next: Seq<DirView>) -> bool {
    previous.len() != next.len() || !dirs_within(previous, next) || !dirs_within(next, previous)
}

/// Whether a listing holds a directory as it is given.
pub open spec fn dir_is(dirs: Seq<DirView>, dir: DirView) -> bool {
    match last_at(dirs, dir.rel_path) {
        Some(at) => dirs[at].mode == dir.mode && dirs[at].mtime == dir.mtime,
        None => false,
    }
}

/// A rescan half folded in.
pub struct Fold<T> {
    pub files: Seq<FileView>,
    pub slots: Seq<Option<T>>,
    pub names: Seq<Seq<char>>,
    /// Which indices the scan has named.
    pub live: Seq<bool>,
    pub changed: bool,
}

/// Whether an entry says of an index what stands there.
pub open spec fn same_file(previous: FileView, entry: FileView) -> bool {
    &&& previous.size == entry.size
    &&& previous.mode == entry.mode
    &&& previous.mtime == entry.mtime
    &&& previous.rel_path.len() > 0
}

/// One scanned file folded in: at the index its path has, or at a new one.
pub open spec fn fold_one<T>(st: Fold<T>, file: (FileView, T)) -> Fold<T> {
    let (entry, payload) = file;
    match index_named(st.names, entry.rel_path) {
        Some(i) => if same_file(st.files[i], entry) {
            Fold { live: st.live.update(i, true), ..st }
        } else {
            Fold {
                files: st.files.update(i, entry),
                slots: st.slots.update(i, Some(payload)),
                live: st.live.update(i, true),
                changed: true,
                ..st
            }
        },
        None => Fold {
            files: st.files.push(entry),
            slots: st.slots.push(Some(payload)),
            names: st.names.push(entry.rel_path),
            live: st.live.push(true),
            changed: true,
        },
    }
}

pub open spec fn fold_all<T>(st: Fold<T>, files: Seq<(FileView, T)>) -> Fold<T>
    decreases files.len(),
{
    if files.len() == 0 {
        st
    } else {
        fold_one(fold_all(st, files.drop_last()), files.last())
    }
}

pub open spec fn fold_start<T>(v: LiveView<T>) -> Fold<T> {
    Fold {
        files: v.files,
        slots: v.slots,
        names: v.names,
        live: Seq::new(v.files.len(), |i: int| false),
        changed: false,
    }
}

/// Whether the file at an index is there but was not scanned.
pub open spec fn vanished<T>(st: Fold<T>, i: int) -> bool {
    st.files[i].rel_path.len() > 0 && !st.live[i]
}

/// Tombstones where files vanished.
pub open spec fn fold_end<T>(st: Fold<T>) -> Fold<T> {
    Fold {
        files: Seq::new(
            st.files.len(),
            |i: int|
                if vanished(st, i) {
                    tomb()
                } else {
                    st.files[i]
                },
        ),
        slots: Seq::new(
            st.files.len(),
            |i: int|
                if vanished(st, i) {
                    None
                } else {
                    st.slots[i]
                },
        ),
        changed: st.changed || exists|i: int| 0 <= i < st.files.len() && #[trigger] vanished(st, i),
        ..st
    }
}

/// The file table after a rescan.
pub open spec fn rescanned<T>(v: LiveView<T>, files: Seq<(FileView, T)>) -> Fold<T> {
    fold_end(fold_all(fold_start(v), first_wins(files)))
}

/// Whether a rescan changes anything.
pub open spec fn rescan_changes<T>(
    v: LiveView<T>,
    dirs: Seq<DirView>,
    files: Seq<(FileView, T)>,
) -> bool {
    dirs_changed(v.dirs, dirs) || rescanned(v, files).changed
}

/// The live tree after a rescan: what it was where nothing changed, and
/// otherwise the new listing under the next version.
pub open spec fn after_rescan<T>(
    v: LiveView<T>,
    dirs: Seq<DirView>,
    files: Seq<(FileView, T)>,
) -> LiveView<T> {
    if rescan_changes(v, dirs, files) {
        let r = rescanned(v, files);
        LiveView {
            dirs,
            files: r.files,
            slots: r.slots,
            names: r.names,
            encoded: manifest_bytes(ManifestView { dirs, files: r.files }),
            version: (v.version + 1) as u64,
        }
    } else {
        v
    }
}

/// The first live tree of a scan.
pub open spec fn first_tree<T>(dirs: Seq<DirView>, files: Seq<(FileView, T)>) -> LiveView<T> {
    let entries = Seq::new(files.len(), |i: int| files[i].0);
    LiveView {
        dirs,
        files: entries,
        slots: Seq::new(files.len(), |i: int| Some(files[i].1)),
        names: Seq::new(files.len(), |i: int| files[i].0.rel_path),
        encoded: manifest_bytes(ManifestView { dirs, files: entries }),
        version: 1,
    }
}

/// How many files are there.
pub open spec fn live_count(files: Seq<FileView>) -> nat
    decreases files.len(),
{
    if files.len() == 0 {
        0
    } else {
        live_count(files.drop_last()) + (if files.last().rel_path.len() == 0 {
            0nat
        } else {
            1nat
        })
    }
}

/// How many bytes the files that are there have.
pub open spec fn live_bytes(files: Seq<FileView>) -> nat
    decreases files.len(),
{
    if files.len() == 0 {
        0
    } else {
        live_bytes(files.drop_last()) + (if files.last().rel_path.len() == 0 {
            0nat
        } else {
            files.last().size as nat
        })
    }
}

pub proof fn lemma_index_named(names: Seq<Seq<char>>, path: Seq<char>)
    ensures
        index_named(names, path) matches Some(i) ==> 0 <= i < names.len() && names[i] == path,
        index_named(names, path) is None ==> forall|i: int|
            0 <= i < names.len() ==> #[trigger] names[i] != path,
    decreases names.len(),
{
    if names.len() > 0 {
        lemma_index_named(names.drop_last(), path);
        let front = names.drop_last();
        assert(forall|i: int| 0 <= i < front.len() ==> front[i] == names[i]);
    }
}

proof fn lemma_index_pushed(names: Seq<Seq<char>>, name: Seq<char>, path: Seq<char>)
    ensures
        index_named(names.push(name), path) == (if name == path {
            Some(names.len() as int)
        } else {
            index_named(names, path)
        }),
{
    assert(names.push(name).drop_last() =~= names);
}

fn dedupe_first_wins<T>(files: Vec<(FileEntry, T)>) -> (out: Vec<(FileEntry, T)>)
    ensures
        given_views(out@) == first_wins(given_views(files@)),
{
    let ghost all = given_views(files@);
    let mut seen = StringHashSet::new();
    let mut out: Vec<(FileEntry, T)> = Vec::new();
    assert(all.take(0) =~= Seq::empty());
    assert(given_views(out@) =~= Seq::empty());
    for item in it: files
        invariant
            it.seq() == files@,
            all == given_views(files@),
            given_views(out@) == first_wins(all.take(it.index() as int)),
            forall|p: Seq<char>| #[trigger]
                seen@.contains(p) == names_path(all.take(it.index() as int), p),
    {
        let ghost i = it.index() as int;
        let ghost short = all.take(i);
        let ghost long = all.take(i + 1);
        let ghost view = (item.0@, item.1);
        assert(item == files@[i]);
        assert(all[i] == view);
        assert(long.drop_last() =~= short);
        assert(long.last() == view);
        let ghost path = item.0.rel_path@;
        let ghost before = given_views(out@);
        let ghost seen_before = seen@;
        if !seen.contains(item.0.rel_path.as_str()) {
            seen.insert(item.0.rel_path.clone());
            out.push(item);
            assert(given_views(out@) =~= before.push(view));
        }
        assert forall|p: Seq<char>| #[trigger] seen@.contains(p) == names_path(long, p) by {
            assert(seen@.contains(p) == (seen_before.contains(p) || p == path));
            if names_path(short, p) {
                let k = choose|k: int| 0 <= k < short.len() && (#[trigger] short[k]).0.rel_path == p;
                assert(long[k].0.rel_path == p);
            }
            if p == path {
                assert(long[i].0.rel_path == p);
            }
            if names_path(long, p) && p != path {
                let k = choose|k: int| 0 <= k < long.len() && (#[trigger] long[k]).0.rel_path == p;
                assert(short[k].0.rel_path == p);
            }
        }
    }
    assert(all.take(all.len() as int) =~= all);
    out
}

fn holds_dirs(dirs: &Vec<DirEntry>, others: &Vec<DirEntry>) -> (within: bool)
    ensures
        within == dirs_within(dir_views(dirs@), dir_views(others@)),
{
    let ghost held = dir_views(dirs@);
    let mut at: StringHashMap<usize> = StringHashMap::new();
    let mut i: usize = 0;
    while i < dirs.len()
        invariant
            0 <= i <= dirs@.len(),
            held == dir_views(dirs@),
            forall|p: Seq<char>|
                {
                    &&& #[trigger] at@.contains_key(p) == last_at(held.take(i as int), p) is Some
                    &&& at@.contains_key(p) ==> last_at(held.take(i as int), p) == Some(
                        at@[p] as int,
                    ) && at@[p] < i
                },
        decreases dirs@.len() - i,
    {
        at.insert(dirs[i].rel_path.clone(), i);
        assert(held.take(i as int + 1).drop_last() =~= held.take(i as int));
        i += 1;
    }
    assert(held.take(i as int) =~= held);
    let ghost given = dir_views(others@);
    let mut j: usize = 0;
    while j < others.len()
        invariant
            0 <= j <= others@.len(),
            held == dir_views(dirs@),
            given == dir_views(others@),
            forall|p: Seq<char>|
                {
                    &&& #[trigger] at@.contains_key(p) == last_at(held, p) is Some
                    &&& at@.contains_key(p) ==> last_at(held, p) == Some(at@[p] as int) && at@[p]
                        < held.len()
                },
            forall|k: int| 0 <= k < j ==> dir_is(held, #[trigger] given[k]),
        decreases others@.len() - j,
    {
        let dir = &others[j];
        let same: bool = match at.get(dir.rel_path.as_str()) {
            Some(k) => dirs[*k].mode == dir.mode && dirs[*k].mtime == dir.mtime,
            None => false,
        };
        assert(given[j as int] == dir@);
        assert(same == dir_is(held, given[j as int]));
        if !same {
            return false;
        }
        j += 1;
    }
    true
}

fn dirs_differ(previous: &Vec<DirEntry>, next: &Vec<DirEntry>) -> (differ: bool)
    ensures
        differ == dirs_changed(dir_views(previous@), dir_views(next@)),
{
    previous.len() != next.len() || !holds_dirs(previous, next) || !holds_dirs(next, previous)
}

fn copy_dirs(dirs: &Vec<DirEntry>) -> (out: Vec<DirEntry>)
    ensures
        dir_views(out@) == dir_views(dirs@),
{
    let mut out: Vec<DirEntry> = Vec::new();
    let mut i: usize = 0;
    while i < dirs.len()
        invariant
            0 <= i <= dirs@.len(),
            out@.len() == i,
            forall|k: int| 0 <= k < i ==> (#[trigger] out@[k])@ == dirs@[k]@,
        decreases dirs@.len() - i,
    {
        out.push(dirs[i].copy());
        i += 1;
    }
    assert(dir_views(out@) =~= dir_views(dirs@));
    out
}

fn copy_files(files: &Vec<FileEntry>) -> (out: Vec<FileEntry>)
    ensures
        file_views(out@) == file_views(files@),
{
    let mut out: Vec<FileEntry> = Vec::new();
    let mut i: usize = 0;
    while i < files.len()
        invariant
            0 <= i <= files@.len(),
            out@.len() == i,
            forall|k: int| 0 <= k < i ==> (#[trigger] out@[k])@ == files@[k]@,
        decreases files@.len() - i,
    {
        out.push(files[i].copy());
        i += 1;
    }
    assert(file_views(out@) =~= file_views(files@));
    out
}

fn index_names(names: &Vec<String>) -> (index_of: StringHashMap<usize>)
    ensures
        map_agrees(index_of@, name_views(names@)),
{
    let mut index_of: StringHashMap<usize> = StringHashMap::new();
    let ghost all = name_views(names@);
    let mut i: usize = 0;
    while i < names.len()
        invariant
            0 <= i <= names@.len(),
            all == name_views(names@),
            map_agrees(index_of@, all.take(i as int)),
        decreases names@.len() - i,
    {
        index_of.insert(names[i].clone(), i);
        assert(all.take(i as int + 1) =~= all.take(i as int).push(all[i as int]));
        assert forall|p: Seq<char>|
            {
                &&& #[trigger] index_of@.contains_key(p) == index_named(
                    all.take(i as int + 1),
                    p,
                ) is Some
                &&& index_of@.contains_key(p) ==> index_named(all.take(i as int + 1), p) == Some(
                    index_of@[p] as int,
                )
            } by {
            lemma_index_pushed(all.take(i as int), all[i as int], p);
        }
        i += 1;
    }
    assert(all.take(i as int) =~= all);
    index_of
}

fn encode_listing(dirs: &Vec<DirEntry>, files: &Vec<FileEntry>) -> (out: Vec<u8>)
    requires
        manifest_fits(ManifestView { dirs: dir_views(dirs@), files: file_views(files@) }),
    ensures
        out@ == manifest_bytes(
            ManifestView { dirs: dir_views(dirs@), files: file_views(files@) },
        ),
{
    let listing = MountManifest { dirs: copy_dirs(dirs), files: copy_files(files) };
    listing.encode()
}

impl<T> LiveState<T> {
    /// What every live tree keeps.
    pub closed spec fn wf(&self) -> bool {
        live_wf(self@) && map_agrees(self.index_of@, self@.names)
    }

    /// The live tree of a first scan.
    pub fn new(dirs: Vec<DirEntry>, files: Vec<(FileEntry, T)>) -> (out: Self)
        requires
            manifest_fits(
                ManifestView {
                    dirs: dir_views(dirs@),
                    files: Seq::new(files@.len(), |i: int| files@[i].0@),
                },
            ),
        ensures
            out.wf(),
            live_wf(out@),
            out@ == first_tree(dir_views(dirs@), given_views(files@)),
            paths_given(given_views(files@)) && paths_distinct(given_views(files@)) ==> live_exact(
                out@,
            ),
    {
        let ghost all = given_views(files@);
        let mut entries: Vec<FileEntry> = Vec::new();
        let mut slots: Vec<Option<T>> = Vec::new();
        let mut names: Vec<String> = Vec::new();
        for item in it: files
            invariant
                it.seq() == files@,
                entries@.len() == it.index(),
                slots@.len() == it.index(),
                names@.len() == it.index(),
                forall|k: int|
                    0 <= k < it.index() ==> (#[trigger] entries@[k])@ == files@[k].0@,
                forall|k: int|
                    0 <= k < it.index() ==> (#[trigger] names@[k])@ == files@[k].0.rel_path@,
                forall|k: int|
                    0 <= k < it.index() ==> (#[trigger] slots@[k]) == Some(files@[k].1),
        {
            let (entry, payload) = item;
            names.push(entry.rel_path.clone());
            entries.push(entry);
            slots.push(Some(payload));
        }
        assert(file_views(entries@) =~= Seq::new(files@.len(), |i: int| files@[i].0@));
        let index_of = index_names(&names);
        let encoded = encode_listing(&dirs, &entries);
        let out = LiveState { dirs, files: entries, slots, names, index_of, encoded, version: 1 };
        let ghost want = first_tree(dir_views(dirs@), all);
        assert(out@.files =~= want.files);
        assert(out@.slots =~= want.slots);
        assert(out@.names =~= want.names);
        out
    }

    /// Folds a rescan in. Returns whether anything changed. Of several files with
    /// one path the first counts.
    pub fn apply(&mut self, dirs: Vec<DirEntry>, files: Vec<(FileEntry, T)>) -> (changed: bool)
        requires
            old(self).wf(),
            old(self)@.version < u64::MAX,
            rescan_changes(old(self)@, dir_views(dirs@), given_views(files@)) ==> manifest_fits(
                ManifestView {
                    dirs: dir_views(dirs@),
                    files: rescanned(old(self)@, given_views(files@)).files,
                },
            ),
        ensures
            final(self).wf(),
            live_wf(final(self)@),
            changed == rescan_changes(old(self)@, dir_views(dirs@), given_views(files@)),
            final(self)@ == after_rescan(old(self)@, dir_views(dirs@), given_views(files@)),
            live_exact(old(self)@) && paths_given(given_views(files@)) ==> live_exact(final(self)@),
    {
        let ghost start = self@;
        let ghost given = given_views(files@);
        proof {
            if live_exact(start) && paths_given(given) {
                lemma_rescan_exact(start, dir_views(dirs@), given);
            }
        }
        let files = dedupe_first_wins(files);
        let ghost pending = given_views(files@);
        let differ: bool = dirs_differ(&self.dirs, &dirs);
        let mut live: Vec<bool> = Vec::new();
        let n: usize = self.files.len();
        let mut filled: usize = 0;
        while filled < n
            invariant
                0 <= filled <= n,
                live@.len() == filled,
                forall|k: int| 0 <= k < filled ==> #[trigger] live@[k] == false,
            decreases n - filled,
        {
            live.push(false);
            filled += 1;
        }
        let mut changed: bool = false;
        let ghost st0 = fold_start(start);
        assert(live@ =~= st0.live);
        assert(pending.take(0) =~= Seq::empty());
        proof {
            lemma_fold_monotone(st0, pending);
        }
        for item in it: files
            invariant
                it.seq() == files@,
                pending == given_views(files@),
                start == old(self)@,
                st0 == fold_start(start),
                live_wf(start),
                map_agrees(self.index_of@, name_views(self.names@)),
                file_views(self.files@) == fold_all(st0, pending.take(it.index() as int)).files,
                self.slots@ == fold_all(st0, pending.take(it.index() as int)).slots,
                name_views(self.names@) == fold_all(st0, pending.take(it.index() as int)).names,
                live@ == fold_all(st0, pending.take(it.index() as int)).live,
                changed == fold_all(st0, pending.take(it.index() as int)).changed,
                self.slots@.len() == self.files@.len(),
                self.names@.len() == self.files@.len(),
                live@.len() == self.files@.len(),
                self.dirs == old(self).dirs,
                self.encoded == old(self).encoded,
                self.version == old(self).version,
                fold_all(st0, pending).changed ==> fold_all(st0, pending).files.len() <= u32::MAX,
        {
            let ghost i = it.index() as int;
            let ghost st = fold_all(st0, pending.take(i));
            proof {
                assert(pending.take(i + 1).drop_last() =~= pending.take(i));
                assert(pending.take(i + 1).last() == pending[i]);
                lemma_fold_prefix(st0, pending, i + 1);
                lemma_fold_monotone(st0, pending.take(i + 1));
                lemma_index_named(st.names, item.0.rel_path@);
            }
            let ghost files_before = file_views(self.files@);
            let ghost names_before = name_views(self.names@);
            let (entry, payload) = item;
            let found: Option<usize> = match self.index_of.get(entry.rel_path.as_str()) {
                Some(k) => Some(*k),
                None => None,
            };
            match found {
                Some(k) => {
                    let unchanged: bool = {
                        let previous = &self.files[k];
                        previous.size == entry.size && previous.mode == entry.mode
                            && previous.mtime == entry.mtime && !previous.is_tombstone()
                    };
                    live[k] = true;
                    if !unchanged {
                        let ghost view = entry@;
                        self.slots[k] = Some(payload);
                        self.files[k] = entry;
                        changed = true;
                        assert(file_views(self.files@) =~= files_before.update(k as int, view));
                    }
                },
                None => {
                    let ghost view = entry@;
                    let k: usize = self.files.len();
                    self.index_of.insert(entry.rel_path.clone(), k);
                    self.names.push(entry.rel_path.clone());
                    self.slots.push(Some(payload));
                    self.files.push(entry);
                    live.push(true);
                    changed = true;
                    assert(file_views(self.files@) =~= files_before.push(view));
                    assert(name_views(self.names@) =~= names_before.push(view.rel_path));
                    assert forall|p: Seq<char>|
                        {
                            &&& #[trigger] self.index_of@.contains_key(p) == index_named(
                                name_views(self.names@),
                                p,
                            ) is Some
                            &&& self.index_of@.contains_key(p) ==> index_named(
                                name_views(self.names@),
                                p,
                            ) == Some(self.index_of@[p] as int)
                        } by {
                        lemma_index_pushed(names_before, view.rel_path, p);
                    }
                },
            }
        }
        assert(pending.take(pending.len() as int) =~= pending);
        let ghost st = fold_all(st0, pending);
        let mut j: usize = 0;
        while j < self.files.len()
            invariant
                0 <= j <= self.files@.len(),
                self.files@.len() == st.files.len(),
                self.slots@.len() == st.files.len(),
                live@ == st.live,
                live@.len() == st.files.len(),
                name_views(self.names@) == st.names,
                map_agrees(self.index_of@, st.names),
                self.dirs == old(self).dirs,
                self.encoded == old(self).encoded,
                self.version == old(self).version,
                forall|k: int| 0 <= k < j ==> file_views(self.files@)[k] == #[trigger] fold_end(
                    st,
                ).files[k],
                forall|k: int| 0 <= k < j ==> self.slots@[k] == #[trigger] fold_end(st).slots[k],
                forall|k: int|
                    j <= k < st.files.len() ==> (#[trigger] self.files@[k])@ == st.files[k],
                forall|k: int| j <= k < st.files.len() ==> #[trigger] self.slots@[k] == st.slots[k],
                changed == (st.changed || exists|k: int| 0 <= k < j && #[trigger] vanished(st, k)),
            decreases self.files@.len() - j,
        {
            let gone: bool = !self.files[j].is_tombstone() && !live[j];
            assert(gone == vanished(st, j as int));
            if gone {
                self.files[j] = FileEntry::tombstone();
                self.slots[j] = None;
                changed = true;
            }
            assert(file_views(self.files@)[j as int] == fold_end(st).files[j as int]);
            assert(self.slots@[j as int] == fold_end(st).slots[j as int]);
            j += 1;
        }
        let ghost r = rescanned(start, given);
        assert(file_views(self.files@) =~= r.files);
        assert(self.slots@ =~= r.slots);
        assert(changed == r.changed);
        if !differ && !changed {
            proof {
                lemma_unchanged_fold(st0, pending);
                assert(r.files =~= start.files);
                assert(r.slots =~= start.slots);
            }
            return false;
        }
        self.dirs = dirs;
        self.encoded = encode_listing(&self.dirs, &self.files);
        self.version = self.version + 1;
        true
    }

    /// The encoded listing.
    pub fn encoded(&self) -> (bytes: &[u8])
        ensures
            bytes@ == self@.encoded,
    {
        self.encoded.as_slice()
    }

    /// The version the listing is published as.
    pub fn version(&self) -> (version: u64)
        ensures
            version == self@.version,
    {
        self.version
    }

    /// How many indices have ever been assigned.
    pub fn assigned(&self) -> (n: usize)
        ensures
            n == self@.files.len(),
    {
        self.files.len()
    }

    /// The payload at an index; `None` for a tombstone or past the end.
    pub fn slot(&self, index: u32) -> (payload: Option<&T>)
        ensures
            payload == (if index < self@.slots.len() {
                match self@.slots[index as int] {
                    Some(p) => Some(&p),
                    None => None,
                }
            } else {
                None
            }),
            live_exact(self@) ==> (payload is Some <==> lists_file(self@.encoded, index as int)),
    {
        proof {
            if live_exact(self@) {
                law_manifest_round_trip(ManifestView { dirs: self@.dirs, files: self@.files });
            }
        }
        let i: usize = index as usize;
        if i < self.slots.len() {
            self.slots[i].as_ref()
        } else {
            None
        }
    }

    /// How many files are there, and how many bytes they have. The byte count
    /// saturates.
    pub fn live_counts(&self) -> (counts: (u32, u64))
        requires
            self.wf(),
        ensures
            counts.0 == live_count(self@.files),
            counts.1 == (if live_bytes(self@.files) <= u64::MAX {
                live_bytes(self@.files)
            } else {
                u64::MAX as nat
            }),
    {
        let ghost all = self@.files;
        let mut count: u32 = 0;
        let mut bytes: u64 = 0;
        let mut i: usize = 0;
        while i < self.files.len()
            invariant
                0 <= i <= self.files@.len(),
                self.files@.len() <= u32::MAX,
                all == file_views(self.files@),
                count == live_count(all.take(i as int)),
                count <= i,
                bytes == (if live_bytes(all.take(i as int)) <= u64::MAX {
                    live_bytes(all.take(i as int))
                } else {
                    u64::MAX as nat
                }),
            decreases self.files@.len() - i,
        {
            assert(all.take(i as int + 1).drop_last() =~= all.take(i as int));
            if !self.files[i].is_tombstone() {
                count = count + 1;
                bytes = bytes.saturating_add(self.files[i].size);
            }
            i += 1;
        }
        assert(all.take(i as int) =~= all);
        (count, bytes)
    }

    /// Goes back to a snapshot.
    pub fn restore(&mut self, previous: LiveStateSnapshot<T>)
        requires
            previous.wf(),
        ensures
            final(self).wf(),
            final(self)@ == previous@,
    {
        self.dirs = previous.dirs;
        self.files = previous.files;
        self.slots = previous.slots;
        self.names = previous.names;
        self.index_of = previous.index_of;
        self.encoded = previous.encoded;
        self.version = previous.version;
    }
}

/// Whether one view is another with its payloads cloned.
pub open spec fn cloned_view<T: Clone>(a: LiveView<T>, b: LiveView<T>) -> bool {
    &&& b.dirs == a.dirs
    &&& b.files == a.files
    &&& b.names == a.names
    &&& b.encoded == a.encoded
    &&& b.version == a.version
    &&& b.slots.len() == a.slots.len()
    &&& forall|i: int|
        0 <= i < a.slots.len() ==> {
            match (#[trigger] a.slots[i], b.slots[i]) {
                (Some(x), Some(y)) => cloned(x, y),
                (None, None) => true,
                _ => false,
            }
        }
}

proof fn lemma_copy_exact<T: Clone>(a: LiveView<T>, b: LiveView<T>)
    requires
        live_exact(a),
        cloned_view(a, b),
    ensures
        live_exact(b),
{
    assert forall|i: int| 0 <= i < b.files.len() implies (#[trigger] b.slots[i] is Some
        <==> b.files[i].rel_path.len() > 0) by {
        assert(a.slots[i] is Some <==> a.files[i].rel_path.len() > 0);
    }
}

impl<T: Clone> LiveState<T> {
    /// A copy to go back to.
    pub fn snapshot(&self) -> (out: LiveStateSnapshot<T>)
        requires
            self.wf(),
        ensures
            out.wf(),
            cloned_view(self@, out@),
            live_exact(self@) ==> live_exact(out@),
    {
        let mut slots: Vec<Option<T>> = Vec::new();
        let mut names: Vec<String> = Vec::new();
        let mut i: usize = 0;
        while i < self.slots.len()
            invariant
                0 <= i <= self.slots@.len(),
                self.names@.len() == self.slots@.len(),
                slots@.len() == i,
                names@.len() == i,
                forall|k: int| 0 <= k < i ==> (#[trigger] names@[k])@ == self.names@[k]@,
                forall|k: int|
                    0 <= k < i ==> {
                        match (#[trigger] self.slots@[k], slots@[k]) {
                            (Some(x), Some(y)) => cloned(x, y),
                            (None, None) => true,
                            _ => false,
                        }
                    },
            decreases self.slots@.len() - i,
        {
            names.push(self.names[i].clone());
            match &self.slots[i] {
                Some(payload) => {
                    slots.push(Some(payload.clone()));
                },
                None => {
                    slots.push(None);
                },
            }
            i += 1;
        }
        assert(name_views(names@) =~= name_views(self.names@));
        let index_of = index_names(&names);
        let encoded = vstd::slice::slice_to_vec(self.encoded.as_slice());
        let out = LiveStateSnapshot {
            dirs: copy_dirs(&self.dirs),
            files: copy_files(&self.files),
            slots,
            names,
            index_of,
            encoded,
            version: self.version,
        };
        proof {
            if live_exact(self@) {
                lemma_copy_exact(self@, out@);
            }
        }
        out
    }
}

impl<T> LiveStateSnapshot<T> {
    pub closed spec fn wf(&self) -> bool {
        live_wf(self@) && map_agrees(self.index_of@, self@.names)
    }
}

/// Whether a fold's columns belong together, and each file that is there stands
/// under its index's name.
spec fn fold_wf<T>(st: Fold<T>) -> bool {
    &&& st.slots.len() == st.files.len()
    &&& st.names.len() == st.files.len()
    &&& st.live.len() == st.files.len()
    &&& forall|i: int|
        0 <= i < st.files.len() && (#[trigger] st.files[i]).rel_path.len() > 0
            ==> st.files[i].rel_path == st.names[i]
}

proof fn lemma_fold_monotone<T>(st: Fold<T>, files: Seq<(FileView, T)>)
    requires
        fold_wf(st),
    ensures
        fold_wf(fold_all(st, files)),
        fold_all(st, files).files.len() >= st.files.len(),
        st.changed ==> fold_all(st, files).changed,
    decreases files.len(),
{
    if files.len() > 0 {
        lemma_fold_monotone(st, files.drop_last());
        lemma_index_named(fold_all(st, files.drop_last()).names, files.last().0.rel_path);
    }
}

proof fn lemma_fold_prefix<T>(st: Fold<T>, files: Seq<(FileView, T)>, i: int)
    requires
        fold_wf(st),
        0 <= i <= files.len(),
    ensures
        fold_all(st, files).files.len() >= fold_all(st, files.take(i)).files.len(),
        fold_all(st, files.take(i)).changed ==> fold_all(st, files).changed,
    decreases files.len() - i,
{
    if i < files.len() {
        lemma_fold_prefix(st, files, i + 1);
        lemma_fold_monotone(st, files.take(i));
        assert(files.take(i + 1).drop_last() =~= files.take(i));
        lemma_index_named(fold_all(st, files.take(i)).names, files[i].0.rel_path);
    } else {
        assert(files.take(i) =~= files);
    }
}

proof fn lemma_unchanged_fold<T>(st: Fold<T>, files: Seq<(FileView, T)>)
    requires
        fold_wf(st),
        !fold_all(st, files).changed,
    ensures
        fold_all(st, files).files == st.files,
        fold_all(st, files).slots == st.slots,
        fold_all(st, files).names == st.names,
    decreases files.len(),
{
    if files.len() > 0 {
        lemma_fold_monotone(st, files.drop_last());
        lemma_unchanged_fold(st, files.drop_last());
    }
}

proof fn lemma_first_wins<T>(files: Seq<(FileView, T)>, p: Seq<char>)
    ensures
        names_path(first_wins(files), p) == names_path(files, p),
    decreases files.len(),
{
    if files.len() > 0 {
        let front = files.drop_last();
        let kept = first_wins(front);
        let all = first_wins(files);
        lemma_first_wins(front, p);
        if names_path(front, p) {
            let k = choose|k: int| 0 <= k < front.len() && (#[trigger] front[k]).0.rel_path == p;
            assert(files[k].0.rel_path == p);
            let l = choose|l: int| 0 <= l < kept.len() && (#[trigger] kept[l]).0.rel_path == p;
            assert(all[l].0.rel_path == p);
        }
        if files.last().0.rel_path == p {
            assert(files[files.len() - 1].0.rel_path == p);
            if !names_path(front, p) {
                assert(all[all.len() - 1].0.rel_path == p);
            }
        }
        if names_path(all, p) {
            let l = choose|l: int| 0 <= l < all.len() && (#[trigger] all[l]).0.rel_path == p;
            if l < kept.len() {
                assert(kept[l].0.rel_path == p);
            }
        }
        if names_path(files, p) {
            let l = choose|l: int| 0 <= l < files.len() && (#[trigger] files[l]).0.rel_path == p;
            if l < front.len() {
                assert(front[l].0.rel_path == p);
            }
        }
    }
}

proof fn lemma_first_wins_distinct<T>(files: Seq<(FileView, T)>, a: int, b: int)
    requires
        0 <= a < b < first_wins(files).len(),
    ensures
        first_wins(files)[a].0.rel_path != first_wins(files)[b].0.rel_path,
    decreases files.len(),
{
    let front = files.drop_last();
    let kept = first_wins(front);
    if b < kept.len() {
        lemma_first_wins_distinct(front, a, b);
    } else {
        let p = files.last().0.rel_path;
        assert(!names_path(front, p));
        lemma_first_wins(front, p);
        assert(!names_path(kept, p));
        assert(kept[a].0.rel_path != p);
    }
}

proof fn lemma_fold_names<T>(st: Fold<T>, files: Seq<(FileView, T)>, p: Seq<char>)
    requires
        fold_wf(st),
    ensures
        forall|i: int| 0 <= i < st.names.len() ==> #[trigger] fold_all(st, files).names[i]
            == st.names[i],
        fold_all(st, files).names.len() >= st.names.len(),
        index_named(st.names, p) is Some ==> index_named(fold_all(st, files).names, p)
            == index_named(st.names, p),
    decreases files.len(),
{
    if files.len() > 0 {
        let front = files.drop_last();
        lemma_fold_names(st, front, p);
        lemma_fold_monotone(st, front);
        let mid = fold_all(st, front);
        let q = files.last().0.rel_path;
        if index_named(mid.names, q) is None {
            lemma_index_pushed(mid.names, q, p);
        }
    }
}

proof fn lemma_fold_untouched<T>(st: Fold<T>, files: Seq<(FileView, T)>, i: int)
    requires
        fold_wf(st),
        0 <= i < st.files.len(),
        !names_path(files, st.names[i]),
    ensures
        fold_all(st, files).files[i] == st.files[i],
        fold_all(st, files).slots[i] == st.slots[i],
        fold_all(st, files).live[i] == st.live[i],
    decreases files.len(),
{
    if files.len() > 0 {
        let front = files.drop_last();
        if names_path(front, st.names[i]) {
            let k = choose|k: int|
                0 <= k < front.len() && (#[trigger] front[k]).0.rel_path == st.names[i];
            assert(files[k].0.rel_path == st.names[i]);
        }
        lemma_fold_untouched(st, front, i);
        lemma_fold_monotone(st, front);
        lemma_fold_names(st, front, st.names[i]);
        let mid = fold_all(st, front);
        let q = files.last().0.rel_path;
        lemma_index_named(mid.names, q);
        assert(mid.names[i] == st.names[i]);
        assert(files[files.len() - 1].0.rel_path == q);
        assert(q != st.names[i]);
    }
}

proof fn lemma_fold_places<T>(st: Fold<T>, files: Seq<(FileView, T)>, k: int)
    requires
        fold_wf(st),
        0 <= k < files.len(),
        forall|a: int, b: int|
            0 <= a < b < files.len() ==> (#[trigger] files[a]).0.rel_path != (
            #[trigger] files[b]).0.rel_path,
    ensures
        index_named(fold_all(st, files).names, files[k].0.rel_path) matches Some(i) && {
            &&& 0 <= i < fold_all(st, files).files.len()
            &&& fold_all(st, files).files[i] == files[k].0
            &&& fold_all(st, files).live[i]
        },
    decreases files.len(),
{
    let front = files.drop_last();
    let mid = fold_all(st, front);
    let p = files[k].0.rel_path;
    let q = files.last().0.rel_path;
    lemma_fold_monotone(st, front);
    lemma_index_named(mid.names, q);
    lemma_index_named(mid.names, p);
    if k < front.len() {
        assert forall|a: int, b: int| 0 <= a < b < front.len() implies (
        #[trigger] front[a]).0.rel_path != (#[trigger] front[b]).0.rel_path by {
            assert(files[a].0.rel_path != files[b].0.rel_path);
        }
        lemma_fold_places(st, front, k);
        assert(front[k] == files[k]);
        assert(files[k].0.rel_path != files[files.len() - 1].0.rel_path);
        if index_named(mid.names, q) is None {
            lemma_index_pushed(mid.names, q, p);
        }
    } else {
        if index_named(mid.names, q) is None {
            lemma_index_pushed(mid.names, q, q);
        }
    }
}

proof fn lemma_fold_start<T>(v: LiveView<T>)
    requires
        live_wf(v),
    ensures
        fold_wf(fold_start(v)),
{
}

proof fn lemma_fold_exact<T>(st: Fold<T>, files: Seq<(FileView, T)>)
    requires
        fold_wf(st),
        names_distinct(st.names),
        forall|i: int| 0 <= i < st.names.len() ==> (#[trigger] st.names[i]).len() > 0,
        forall|i: int|
            0 <= i < st.files.len() ==> (#[trigger] st.slots[i] is Some
                <==> st.files[i].rel_path.len() > 0),
        paths_given(files),
    ensures
        fold_wf(fold_all(st, files)),
        names_distinct(fold_all(st, files).names),
        forall|i: int|
            0 <= i < fold_all(st, files).names.len() ==> (#[trigger] fold_all(
                st,
                files,
            ).names[i]).len() > 0,
        forall|i: int|
            0 <= i < fold_all(st, files).files.len() ==> (#[trigger] fold_all(st, files).slots[i]
                is Some <==> fold_all(st, files).files[i].rel_path.len() > 0),
    decreases files.len(),
{
    lemma_fold_monotone(st, files);
    if files.len() > 0 {
        let front = files.drop_last();
        assert forall|i: int| 0 <= i < front.len() implies (
        #[trigger] front[i]).0.rel_path.len() > 0 by {
            assert(files[i].0.rel_path.len() > 0);
        }
        lemma_fold_exact(st, front);
        lemma_fold_monotone(st, front);
        let mid = fold_all(st, front);
        let last = files[files.len() - 1];
        assert(last.0.rel_path.len() > 0);
        lemma_index_named(mid.names, last.0.rel_path);
    }
}

proof fn lemma_rescan_exact<T>(v: LiveView<T>, dirs: Seq<DirView>, files: Seq<(FileView, T)>)
    requires
        live_exact(v),
        paths_given(files),
        rescan_changes(v, dirs, files) ==> manifest_fits(
            ManifestView { dirs, files: rescanned(v, files).files },
        ),
    ensures
        live_exact(after_rescan(v, dirs, files)),
{
    let pending = first_wins(files);
    lemma_fold_start(v);
    assert forall|k: int| 0 <= k < pending.len() implies (#[trigger] pending[k]).0.rel_path.len()
        > 0 by {
        lemma_first_wins_member(files, k);
        let l = choose|l: int| 0 <= l < files.len() && files[l] == pending[k];
        assert(files[l].0.rel_path.len() > 0);
    }
    lemma_fold_exact(fold_start(v), pending);
    let st = fold_all(fold_start(v), pending);
    let r = fold_end(st);
    assert forall|i: int| 0 <= i < r.files.len() implies (#[trigger] r.slots[i] is Some
        <==> r.files[i].rel_path.len() > 0) by {
        assert(st.slots[i] is Some <==> st.files[i].rel_path.len() > 0);
    }
}

proof fn lemma_fold_new<T>(st: Fold<T>, files: Seq<(FileView, T)>)
    requires
        fold_wf(st),
    ensures
        forall|i: int|
            st.names.len() <= i < fold_all(st, files).names.len() ==> {
                &&& fold_all(st, files).files[i].rel_path == #[trigger] fold_all(st, files).names[i]
                &&& fold_all(st, files).live[i]
            },
    decreases files.len(),
{
    if files.len() > 0 {
        let front = files.drop_last();
        lemma_fold_new(st, front);
        lemma_fold_monotone(st, front);
        lemma_index_named(fold_all(st, front).names, files.last().0.rel_path);
        let mid = fold_all(st, front);
        let end = fold_all(st, files);
        assert forall|i: int| st.names.len() <= i < end.names.len() implies {
            &&& end.files[i].rel_path == #[trigger] end.names[i]
            &&& end.live[i]
        } by {
            if i < mid.names.len() {
                assert(mid.names[i] == end.names[i]);
            }
        }
    }
}

/// Indices are stable: a rescan never renames one, never drops one, and a path
/// keeps the index it has, whether or not its file is there.
pub proof fn law_indices_are_stable<T>(
    v: LiveView<T>,
    dirs: Seq<DirView>,
    files: Seq<(FileView, T)>,
    i: int,
)
    requires
        live_wf(v),
        0 <= i < v.names.len(),
    ensures
        after_rescan(v, dirs, files).names.len() >= v.names.len(),
        after_rescan(v, dirs, files).names[i] == v.names[i],
        index_named(after_rescan(v, dirs, files).names, v.names[i]) == index_named(
            v.names,
            v.names[i],
        ),
{
    lemma_fold_start(v);
    lemma_fold_names(fold_start(v), first_wins(files), v.names[i]);
    lemma_index_named(v.names, v.names[i]);
}

/// A scanned file stands, as scanned, at the index its path has: its old one if
/// it ever had one, so a file that comes back reclaims it, and a new one at the
/// end otherwise. Of several with one path the first counts.
pub proof fn law_scanned_file_takes_its_index<T>(
    v: LiveView<T>,
    dirs: Seq<DirView>,
    files: Seq<(FileView, T)>,
    k: int,
)
    requires
        live_wf(v),
        0 <= k < first_wins(files).len(),
        rescan_changes(v, dirs, files),
    ensures
        index_named(after_rescan(v, dirs, files).names, first_wins(files)[k].0.rel_path) matches Some(
            i,
        ) && {
            &&& after_rescan(v, dirs, files).files[i] == first_wins(files)[k].0
            &&& index_named(v.names, first_wins(files)[k].0.rel_path) matches Some(j) ==> i == j
            &&& index_named(v.names, first_wins(files)[k].0.rel_path) is None ==> i
                >= v.names.len()
        },
{
    let pending = first_wins(files);
    let st = fold_start(v);
    lemma_fold_start(v);
    assert forall|a: int, b: int| 0 <= a < b < pending.len() implies (#[trigger] pending[a]).0.rel_path
        != (#[trigger] pending[b]).0.rel_path by {
        lemma_first_wins_distinct(files, a, b);
    }
    lemma_fold_places(st, pending, k);
    lemma_fold_names(st, pending, pending[k].0.rel_path);
    lemma_index_named(v.names, pending[k].0.rel_path);
    let i = index_named(fold_all(st, pending).names, pending[k].0.rel_path)->Some_0;
    lemma_index_named(fold_all(st, pending).names, pending[k].0.rel_path);
    if i < v.names.len() {
        assert(fold_all(st, pending).names[i] == v.names[i]);
    }
}

/// A file the rescan does not name leaves a tombstone at its index and no
/// payload; no other index is touched on its account.
pub proof fn law_missing_file_leaves_a_tombstone<T>(
    v: LiveView<T>,
    dirs: Seq<DirView>,
    files: Seq<(FileView, T)>,
    i: int,
)
    requires
        live_wf(v),
        0 <= i < v.files.len(),
        v.files[i].rel_path.len() > 0,
        !names_path(files, v.names[i]),
    ensures
        rescan_changes(v, dirs, files),
        after_rescan(v, dirs, files).files[i] == tomb(),
        after_rescan(v, dirs, files).slots[i] is None,
{
    let pending = first_wins(files);
    let st = fold_start(v);
    lemma_fold_start(v);
    lemma_first_wins(files, v.names[i]);
    lemma_fold_untouched(st, pending, i);
    lemma_fold_monotone(st, pending);
    assert(vanished(fold_all(st, pending), i));
}

/// An index that is a tombstone, and whose path the rescan does not name, stays
/// as it is.
pub proof fn law_tombstones_stay<T>(
    v: LiveView<T>,
    dirs: Seq<DirView>,
    files: Seq<(FileView, T)>,
    i: int,
)
    requires
        live_wf(v),
        0 <= i < v.files.len(),
        v.files[i].rel_path.len() == 0,
        !names_path(files, v.names[i]),
    ensures
        after_rescan(v, dirs, files).files[i] == v.files[i],
        after_rescan(v, dirs, files).slots[i] == v.slots[i],
{
    let pending = first_wins(files);
    let st = fold_start(v);
    lemma_fold_start(v);
    lemma_first_wins(files, v.names[i]);
    lemma_fold_untouched(st, pending, i);
    lemma_fold_monotone(st, pending);
}

proof fn lemma_fold_keeps<T>(st: Fold<T>, files: Seq<(FileView, T)>)
    requires
        fold_wf(st),
        !st.changed,
        forall|k: int|
            0 <= k < files.len() ==> (index_named(
                st.names,
                (#[trigger] files[k]).0.rel_path,
            ) matches Some(i) && same_file(st.files[i], files[k].0)),
    ensures
        !fold_all(st, files).changed,
        fold_all(st, files).files == st.files,
        fold_all(st, files).names == st.names,
        forall|i: int, k: int|
            0 <= k < files.len() && index_named(st.names, (#[trigger] files[k]).0.rel_path) == Some(
                i,
            ) ==> #[trigger] fold_all(st, files).live[i],
    decreases files.len(),
{
    if files.len() > 0 {
        let front = files.drop_last();
        assert forall|k: int| 0 <= k < front.len() implies (index_named(
            st.names,
            (#[trigger] front[k]).0.rel_path,
        ) matches Some(i) && same_file(st.files[i], front[k].0)) by {
            assert(front[k] == files[k]);
        }
        lemma_fold_keeps(st, front);
        lemma_fold_monotone(st, front);
        let mid = fold_all(st, front);
        let last = files[files.len() - 1];
        assert(index_named(st.names, last.0.rel_path) is Some);
        lemma_index_named(st.names, last.0.rel_path);
        assert forall|i: int, k: int|
            0 <= k < files.len() && index_named(st.names, (#[trigger] files[k]).0.rel_path) == Some(
                i,
            ) implies #[trigger] fold_all(st, files).live[i] by {
            lemma_index_named(st.names, files[k].0.rel_path);
            if k < front.len() {
                assert(front[k] == files[k]);
                assert(mid.live[i]);
            }
        }
    }
}

/// A rescan that finds what is there changes nothing: not the listing, not its
/// bytes, not its version.
pub proof fn law_unchanged_tree_is_no_change<T>(
    v: LiveView<T>,
    dirs: Seq<DirView>,
    files: Seq<(FileView, T)>,
)
    requires
        live_wf(v),
        !dirs_changed(v.dirs, dirs),
        forall|k: int|
            0 <= k < files.len() ==> (index_named(
                v.names,
                (#[trigger] files[k]).0.rel_path,
            ) matches Some(i) && same_file(v.files[i], files[k].0)),
        forall|i: int|
            0 <= i < v.files.len() && (#[trigger] v.files[i]).rel_path.len() > 0 ==> names_path(
                files,
                v.names[i],
            ) && index_named(v.names, v.names[i]) == Some(i),
    ensures
        !rescan_changes(v, dirs, files),
        after_rescan(v, dirs, files) == v,
{
    let pending = first_wins(files);
    let st = fold_start(v);
    lemma_fold_start(v);
    assert forall|k: int| 0 <= k < pending.len() implies (index_named(
        st.names,
        (#[trigger] pending[k]).0.rel_path,
    ) matches Some(i) && same_file(st.files[i], pending[k].0)) by {
        lemma_first_wins_member(files, k);
        let l = choose|l: int| 0 <= l < files.len() && files[l] == pending[k];
        assert(files[l].0 == pending[k].0);
    }
    lemma_fold_keeps(st, pending);
    let end = fold_all(st, pending);
    assert forall|i: int| 0 <= i < end.files.len() implies !#[trigger] vanished(end, i) by {
        if v.files[i].rel_path.len() > 0 {
            lemma_first_wins(files, v.names[i]);
            let k = choose|k: int|
                0 <= k < pending.len() && (#[trigger] pending[k]).0.rel_path == v.names[i];
            assert(index_named(st.names, pending[k].0.rel_path) == Some(i));
            assert(end.live[i]);
        }
    }
}

proof fn lemma_first_wins_member<T>(files: Seq<(FileView, T)>, k: int)
    requires
        0 <= k < first_wins(files).len(),
    ensures
        exists|l: int| 0 <= l < files.len() && files[l] == first_wins(files)[k],
    decreases files.len(),
{
    let front = files.drop_last();
    let kept = first_wins(front);
    if k < kept.len() {
        lemma_first_wins_member(front, k);
        let l = choose|l: int| 0 <= l < front.len() && front[l] == kept[k];
        assert(files[l] == first_wins(files)[k]);
    } else {
        assert(files[files.len() - 1] == first_wins(files)[k]);
    }
}

/// What one scan finds.
pub struct Scan<T> {
    pub dirs: Seq<DirView>,
    pub files: Seq<(FileView, T)>,
}

/// The live tree of a first scan, with any number of rescans folded in.
pub open spec fn after_scans<T>(first: Scan<T>, scans: Seq<Scan<T>>) -> LiveView<T>
    decreases scans.len(),
{
    if scans.len() == 0 {
        first_tree(first.dirs, first.files)
    } else {
        after_rescan(
            after_scans(first, scans.drop_last()),
            scans.last().dirs,
            scans.last().files,
        )
    }
}

/// Whether scans are what a live tree takes: every file has a path, the first
/// scan names none twice, and every listing on the way can be encoded.
pub open spec fn scans_fit<T>(first: Scan<T>, scans: Seq<Scan<T>>) -> bool {
    &&& paths_given(first.files)
    &&& paths_distinct(first.files)
    &&& forall|k: int| 0 <= k < scans.len() ==> paths_given((#[trigger] scans[k]).files)
    &&& forall|k: int|
        0 <= k <= scans.len() ==> {
            let v = after_scans(first, #[trigger] scans.take(k));
            manifest_fits(ManifestView { dirs: v.dirs, files: v.files })
        }
}

/// The listing after the first so many rescans.
pub open spec fn listing_after<T>(first: Scan<T>, scans: Seq<Scan<T>>, k: int) -> ManifestView {
    match manifest_of(after_scans(first, scans.take(k)).encoded) {
        Ok(m) => m,
        Err(_) => ManifestView { dirs: Seq::empty(), files: Seq::empty() },
    }
}

/// Whether a listing has a file of some path at an index.
pub open spec fn lists_at(m: ManifestView, i: int, path: Seq<char>) -> bool {
    0 <= i < m.files.len() && m.files[i].rel_path == path && path.len() > 0
}

/// Whether a file of some path was listed at the start or after one of the first
/// so many rescans.
pub open spec fn ever_listed<T>(
    first: Scan<T>,
    scans: Seq<Scan<T>>,
    k: int,
    path: Seq<char>,
) -> bool {
    exists|h: int, i: int|
        0 <= h <= k && #[trigger] lists_at(listing_after(first, scans, h), i, path)
}

proof fn lemma_scans_fit_front<T>(first: Scan<T>, scans: Seq<Scan<T>>, k: int)
    requires
        scans_fit(first, scans),
        0 <= k <= scans.len(),
    ensures
        scans_fit(first, scans.take(k)),
{
    let front = scans.take(k);
    assert forall|h: int| 0 <= h <= front.len() implies {
        let v = after_scans(first, #[trigger] front.take(h));
        manifest_fits(ManifestView { dirs: v.dirs, files: v.files })
    } by {
        assert(front.take(h) =~= scans.take(h));
    }
    assert forall|h: int| 0 <= h < front.len() implies paths_given(
        (#[trigger] front[h]).files,
    ) by {
        assert(front[h] == scans[h]);
    }
}

proof fn lemma_scans_exact<T>(first: Scan<T>, scans: Seq<Scan<T>>)
    requires
        scans_fit(first, scans),
    ensures
        live_exact(after_scans(first, scans)),
    decreases scans.len(),
{
    let v = after_scans(first, scans);
    assert(scans.take(scans.len() as int) =~= scans);
    assert(manifest_fits(ManifestView { dirs: v.dirs, files: v.files }));
    if scans.len() == 0 {
        assert forall|i: int| 0 <= i < v.names.len() implies (#[trigger] v.names[i]).len() > 0 by {
            assert(first.files[i].0.rel_path.len() > 0);
        }
        assert forall|i: int| 0 <= i < v.files.len() implies (#[trigger] v.slots[i] is Some
            <==> v.files[i].rel_path.len() > 0) by {
            assert(first.files[i].0.rel_path.len() > 0);
        }
        assert forall|i: int, j: int| 0 <= i < j < v.names.len() implies #[trigger] v.names[i]
            != #[trigger] v.names[j] by {
            assert(first.files[i].0.rel_path != first.files[j].0.rel_path);
        }
    } else {
        lemma_scans_fit_front(first, scans, scans.len() - 1);
        assert(scans.take(scans.len() - 1) =~= scans.drop_last());
        lemma_scans_exact(first, scans.drop_last());
        let last = scans[scans.len() - 1];
        assert(paths_given(last.files));
        lemma_rescan_exact(after_scans(first, scans.drop_last()), last.dirs, last.files);
    }
}

/// The names after some rescans begin with those after fewer.
proof fn lemma_names_grow<T>(first: Scan<T>, scans: Seq<Scan<T>>, j: int, k: int)
    requires
        scans_fit(first, scans),
        0 <= j <= k <= scans.len(),
    ensures
        after_scans(first, scans.take(j)).names.len() <= after_scans(
            first,
            scans.take(k),
        ).names.len(),
        forall|i: int|
            0 <= i < after_scans(first, scans.take(j)).names.len() ==> #[trigger] after_scans(
                first,
                scans.take(k),
            ).names[i] == after_scans(first, scans.take(j)).names[i],
    decreases k - j,
{
    if j < k {
        lemma_names_grow(first, scans, j, k - 1);
        lemma_scans_fit_front(first, scans, k - 1);
        lemma_scans_exact(first, scans.take(k - 1));
        let v = after_scans(first, scans.take(k - 1));
        let last = scans[k - 1];
        assert(scans.take(k).drop_last() =~= scans.take(k - 1));
        assert(scans.take(k).last() == last);
        lemma_fold_start(v);
        lemma_fold_names(fold_start(v), first_wins(last.files), Seq::empty());
        let w = after_scans(first, scans.take(k));
        assert forall|i: int|
            0 <= i < after_scans(first, scans.take(j)).names.len() implies #[trigger] w.names[i]
            == after_scans(first, scans.take(j)).names[i] by {
            assert(w.names[i] == v.names[i]);
        }
    }
}

proof fn lemma_listing<T>(first: Scan<T>, scans: Seq<Scan<T>>, k: int)
    requires
        scans_fit(first, scans),
        0 <= k <= scans.len(),
    ensures
        live_exact(after_scans(first, scans.take(k))),
        manifest_of(after_scans(first, scans.take(k)).encoded) is Ok,
        listing_after(first, scans, k).files == after_scans(first, scans.take(k)).files,
{
    lemma_scans_fit_front(first, scans, k);
    lemma_scans_exact(first, scans.take(k));
    let v = after_scans(first, scans.take(k));
    law_manifest_round_trip(ManifestView { dirs: v.dirs, files: v.files });
}

/// Every name was once that of a listed file.
proof fn lemma_names_were_listed<T>(first: Scan<T>, scans: Seq<Scan<T>>, k: int, i: int)
    requires
        scans_fit(first, scans),
        0 <= k <= scans.len(),
        0 <= i < after_scans(first, scans.take(k)).names.len(),
    ensures
        ever_listed(first, scans, k, after_scans(first, scans.take(k)).names[i]),
    decreases k,
{
    lemma_listing(first, scans, k);
    let w = after_scans(first, scans.take(k));
    let p = w.names[i];
    assert(p.len() > 0);
    if k == 0 {
        assert(scans.take(0) =~= Seq::empty());
        assert(lists_at(listing_after(first, scans, 0), i, p));
    } else {
        lemma_listing(first, scans, k - 1);
        let v = after_scans(first, scans.take(k - 1));
        let last = scans[k - 1];
        assert(scans.take(k).drop_last() =~= scans.take(k - 1));
        assert(scans.take(k).last() == last);
        lemma_fold_start(v);
        lemma_fold_names(fold_start(v), first_wins(last.files), p);
        if i < v.names.len() {
            assert(w.names[i] == v.names[i]);
            lemma_names_were_listed(first, scans, k - 1, i);
            let (h, l) = choose|h: int, l: int|
                0 <= h <= k - 1 && #[trigger] lists_at(listing_after(first, scans, h), l, p);
            assert(lists_at(listing_after(first, scans, h), l, p));
        } else {
            lemma_fold_new(fold_start(v), first_wins(last.files));
            let st = fold_all(fold_start(v), first_wins(last.files));
            assert(st.names[i] == p);
            assert(!vanished(st, i));
            assert(lists_at(listing_after(first, scans, k), i, p));
        }
    }
}

/// Indices are stable over the listings themselves, however many rescans lie
/// between two of them: the listing never gets shorter; a path listed in both is
/// at one index, so a file that comes back reclaims the one it had; where a file
/// stood, the later listing has a tombstone or a file of the same path, and never
/// one of another; and a path that was in no listing up to the earlier one gets
/// an index past its end.
pub proof fn law_listings_are_index_stable<T>(
    first: Scan<T>,
    scans: Seq<Scan<T>>,
    j: int,
    k: int,
    i: int,
    l: int,
    path: Seq<char>,
)
    requires
        scans_fit(first, scans),
        0 <= j <= k <= scans.len(),
    ensures
        manifest_of(after_scans(first, scans.take(j)).encoded) == Ok::<ManifestView, WireError>(
            listing_after(first, scans, j),
        ),
        manifest_of(after_scans(first, scans.take(k)).encoded) == Ok::<ManifestView, WireError>(
            listing_after(first, scans, k),
        ),
        listing_after(first, scans, j).files.len() <= listing_after(first, scans, k).files.len(),
        lists_at(listing_after(first, scans, j), i, path) && lists_at(
            listing_after(first, scans, k),
            l,
            path,
        ) ==> i == l,
        lists_at(listing_after(first, scans, j), i, path) ==> {
            ||| listing_after(first, scans, k).files[i].rel_path.len() == 0
            ||| listing_after(first, scans, k).files[i].rel_path == path
        },
        !ever_listed(first, scans, j, path) && lists_at(listing_after(first, scans, k), l, path)
            ==> l >= listing_after(first, scans, j).files.len(),
{
    lemma_listing(first, scans, j);
    lemma_listing(first, scans, k);
    lemma_names_grow(first, scans, j, k);
    let v = after_scans(first, scans.take(j));
    let w = after_scans(first, scans.take(k));
    if lists_at(listing_after(first, scans, j), i, path) {
        assert(v.names[i] == path);
        assert(w.names[i] == path);
    }
    if lists_at(listing_after(first, scans, k), l, path) {
        assert(w.names[l] == path);
        if l < v.names.len() {
            assert(v.names[l] == path);
            lemma_names_were_listed(first, scans, j, l);
        }
    }
}

/// However many rescans a live tree has taken, a payload stands at an index
/// exactly where its listing has a file.
pub proof fn law_payload_where_a_file_is_listed<T>(first: Scan<T>, scans: Seq<Scan<T>>, i: int)
    requires
        scans_fit(first, scans),
    ensures
        (0 <= i < after_scans(first, scans).slots.len() && after_scans(first, scans).slots[i]
            is Some) <==> lists_file(after_scans(first, scans).encoded, i),
{
    assert(scans.take(scans.len() as int) =~= scans);
    lemma_listing(first, scans, scans.len() as int);
    assert(live_exact(after_scans(first, scans)));
    let v = after_scans(first, scans);
    law_manifest_round_trip(ManifestView { dirs: v.dirs, files: v.files });
}

/// Whether a scanned file is the first the scan names by its path.
pub open spec fn is_first<T>(files: Seq<(FileView, T)>, k: int) -> bool {
    0 <= k < files.len() && forall|j: int|
        0 <= j < k ==> (#[trigger] files[j]).0.rel_path != files[k].0.rel_path
}

/// Where in what the scan comes down to its first files stand: each once, and in
/// their order.
proof fn lemma_first_wins_place<T>(files: Seq<(FileView, T)>, k: int) -> (n: int)
    requires
        is_first(files, k),
    ensures
        0 <= n < first_wins(files).len(),
        n <= k,
        first_wins(files)[n] == files[k],
        first_wins(files.take(k)).len() == n,
        first_wins(files).take(n) == first_wins(files.take(k)),
    decreases files.len(),
{
    let front = files.drop_last();
    if k < front.len() {
        assert forall|j: int| 0 <= j < k implies (#[trigger] front[j]).0.rel_path
            != front[k].0.rel_path by {
            assert(front[j] == files[j]);
        }
        let n = lemma_first_wins_place(front, k);
        assert(front.take(k) =~= files.take(k));
        assert(first_wins(files).take(n) =~= first_wins(front).take(n));
        n
    } else {
        assert(files.take(k) =~= front);
        if names_path(front, files[k].0.rel_path) {
            let j = choose|j: int|
                0 <= j < front.len() && (#[trigger] front[j]).0.rel_path == files[k].0.rel_path;
            assert(files[j].0.rel_path == files[k].0.rel_path);
        }
        lemma_first_wins_len(front);
        assert(first_wins(files).take(first_wins(front).len() as int) =~= first_wins(front));
        first_wins(front).len() as int
    }
}

proof fn lemma_first_wins_len<T>(files: Seq<(FileView, T)>)
    ensures
        first_wins(files).len() <= files.len(),
    decreases files.len(),
{
    if files.len() > 0 {
        lemma_first_wins_len(files.drop_last());
    }
}

/// Every file a scan comes down to is the first of its path.
proof fn lemma_first_wins_first<T>(files: Seq<(FileView, T)>, n: int) -> (k: int)
    requires
        0 <= n < first_wins(files).len(),
    ensures
        is_first(files, k),
        files[k] == first_wins(files)[n],
    decreases files.len(),
{
    let front = files.drop_last();
    let kept = first_wins(front);
    if n < kept.len() {
        let k = lemma_first_wins_first(front, n);
        assert forall|j: int| 0 <= j < k implies (#[trigger] files[j]).0.rel_path
            != files[k].0.rel_path by {
            assert(front[j] == files[j]);
        }
        k
    } else {
        let k = files.len() - 1;
        assert forall|j: int| 0 <= j < k implies (#[trigger] files[j]).0.rel_path
            != files[k].0.rel_path by {
            assert(front[j] == files[j]);
        }
        k
    }
}

proof fn lemma_fold_payload<T>(st: Fold<T>, files: Seq<(FileView, T)>, n: int)
    requires
        fold_wf(st),
        0 <= n < files.len(),
        forall|a: int, b: int|
            0 <= a < b < files.len() ==> (#[trigger] files[a]).0.rel_path != (
            #[trigger] files[b]).0.rel_path,
    ensures
        index_named(fold_all(st, files).names, files[n].0.rel_path) matches Some(i) && {
            &&& 0 <= i < fold_all(st, files).files.len()
            &&& fold_all(st, files).slots[i] == (if i < st.files.len() && same_file(
                st.files[i],
                files[n].0,
            ) {
                st.slots[i]
            } else {
                Some(files[n].1)
            })
        },
    decreases files.len(),
{
    let front = files.drop_last();
    let mid = fold_all(st, front);
    let p = files[n].0.rel_path;
    let q = files.last().0.rel_path;
    lemma_fold_monotone(st, front);
    lemma_fold_names(st, front, p);
    lemma_index_named(mid.names, q);
    lemma_index_named(mid.names, p);
    if n < front.len() {
        assert forall|a: int, b: int| 0 <= a < b < front.len() implies (
        #[trigger] front[a]).0.rel_path != (#[trigger] front[b]).0.rel_path by {
            assert(files[a].0.rel_path != files[b].0.rel_path);
        }
        lemma_fold_payload(st, front, n);
        assert(front[n] == files[n]);
        assert(files[n].0.rel_path != files[files.len() - 1].0.rel_path);
        if index_named(mid.names, q) is None {
            lemma_index_pushed(mid.names, q, p);
        }
    } else {
        lemma_index_named(st.names, q);
        if names_path(front, q) {
            let k = choose|k: int| 0 <= k < front.len() && (#[trigger] front[k]).0.rel_path == q;
            assert(files[k].0.rel_path != files[n].0.rel_path);
        }
        match index_named(mid.names, q) {
            Some(i) => {
                if i < st.names.len() {
                    assert(mid.names[i] == st.names[i]);
                    lemma_fold_untouched(st, front, i);
                } else {
                    lemma_fold_new_from(st, front, i);
                }
            },
            None => {
                lemma_index_pushed(mid.names, q, q);
            },
        }
    }
}

/// A name that is new has come from the scan.
proof fn lemma_fold_new_from<T>(st: Fold<T>, files: Seq<(FileView, T)>, i: int)
    requires
        fold_wf(st),
        st.names.len() <= i < fold_all(st, files).names.len(),
    ensures
        names_path(files, fold_all(st, files).names[i]),
    decreases files.len(),
{
    if files.len() > 0 {
        let front = files.drop_last();
        let mid = fold_all(st, front);
        lemma_fold_monotone(st, front);
        lemma_index_named(mid.names, files.last().0.rel_path);
        if i < mid.names.len() {
            lemma_fold_new_from(st, front, i);
            assert(fold_all(st, files).names[i] == mid.names[i]);
            let k = choose|k: int|
                0 <= k < front.len() && (#[trigger] front[k]).0.rel_path == mid.names[i];
            assert(files[k].0.rel_path == mid.names[i]);
        } else {
            assert(files[files.len() - 1].0.rel_path == fold_all(st, files).names[i]);
        }
    }
}

proof fn lemma_rescan_places<T>(v: LiveView<T>, files: Seq<(FileView, T)>, k: int) -> (i: int)
    requires
        live_wf(v),
        is_first(files, k),
    ensures
        index_named(rescanned(v, files).names, files[k].0.rel_path) == Some(i),
        0 <= i < rescanned(v, files).files.len(),
        rescanned(v, files).files[i] == files[k].0,
        rescanned(v, files).slots[i] == (if i < v.files.len() && same_file(
            v.files[i],
            files[k].0,
        ) {
            v.slots[i]
        } else {
            Some(files[k].1)
        }),
        match index_named(v.names, files[k].0.rel_path) {
            Some(j) => i == j,
            None => i >= v.files.len(),
        },
{
    let pending = first_wins(files);
    let st = fold_start(v);
    let n = lemma_first_wins_place(files, k);
    lemma_fold_start(v);
    assert forall|a: int, b: int| 0 <= a < b < pending.len() implies (
    #[trigger] pending[a]).0.rel_path != (#[trigger] pending[b]).0.rel_path by {
        lemma_first_wins_distinct(files, a, b);
    }
    lemma_fold_places(st, pending, n);
    lemma_fold_payload(st, pending, n);
    lemma_fold_monotone(st, pending);
    let p = files[k].0.rel_path;
    lemma_fold_names(st, pending, p);
    lemma_index_named(v.names, p);
    let end = fold_all(st, pending);
    let i = index_named(end.names, p)->Some_0;
    lemma_index_named(end.names, p);
    assert(!vanished(end, i));
    if index_named(v.names, p) is None && i < v.names.len() {
        assert(end.names[i] == v.names[i]);
    }
    i
}

/// Whether a file that was found stands at an index of a live tree `w` that was
/// `v` before: as it was found, with the handle that came with it behind it, or
/// with the one that was there where the very same entry was; and at the index
/// its path had, or past the old end.
pub open spec fn shows<T>(v: LiveView<T>, w: LiveView<T>, found: (FileView, T), i: int) -> bool {
    &&& 0 <= i < w.files.len()
    &&& w.files[i] == found.0
    &&& w.names[i] == found.0.rel_path
    &&& w.slots[i] == (if i < v.files.len() && v.files[i] == found.0 {
        v.slots[i]
    } else {
        Some(found.1)
    })
    &&& (if v.names.contains(found.0.rel_path) {
        i < v.names.len() && v.names[i] == found.0.rel_path
    } else {
        i >= v.names.len()
    })
}

/// What a rescan finds is what the live tree shows then. Every file it names is
/// listed as it was found; of several with one path the first counts. Behind it
/// stands the handle that came with it, unless the very same entry was listed
/// before: then the handle that was there stays. A path that ever had an index
/// has that one, and any other is past the old end.
pub proof fn law_a_rescan_lists_what_it_found<T>(
    v: LiveView<T>,
    dirs: Seq<DirView>,
    files: Seq<(FileView, T)>,
    k: int,
)
    requires
        live_wf(v),
        is_first(files, k),
        files[k].0.rel_path.len() > 0,
    ensures
        exists|i: int| #[trigger] shows(v, after_rescan(v, dirs, files), files[k], i),
{
    let w = after_rescan(v, dirs, files);
    let r = rescanned(v, files);
    let p = files[k].0.rel_path;
    let i = lemma_rescan_places(v, files, k);
    lemma_index_named(r.names, p);
    lemma_index_named(v.names, p);
    if index_named(v.names, p) is Some {
        assert(v.names.contains(p));
    } else if v.names.contains(p) {
        let j = choose|j: int| 0 <= j < v.names.len() && v.names[j] == p;
        assert(v.names[j] == p);
    }
    if !rescan_changes(v, dirs, files) {
        let st = fold_start(v);
        lemma_fold_start(v);
        lemma_unchanged_fold(st, first_wins(files));
        assert(r.files =~= v.files);
        assert(r.slots =~= v.slots);
    }
    if i < v.files.len() && v.files[i].rel_path.len() > 0 {
        assert(v.files[i].rel_path == v.names[i]);
    }
    assert(shows(v, w, files[k], i));
}

/// A rescan lists nothing else: a file that is listed after it, and whatever
/// stands past the old end, was found by it.
pub proof fn law_a_rescan_lists_nothing_else<T>(
    v: LiveView<T>,
    dirs: Seq<DirView>,
    files: Seq<(FileView, T)>,
    i: int,
)
    requires
        live_wf(v),
        paths_given(files),
        0 <= i < after_rescan(v, dirs, files).files.len(),
        i >= v.files.len() || after_rescan(v, dirs, files).files[i].rel_path.len() > 0,
    ensures
        exists|k: int|
            is_first(files, k) && (#[trigger] files[k]).0 == after_rescan(v, dirs, files).files[i],
{
    let w = after_rescan(v, dirs, files);
    let r = rescanned(v, files);
    let st = fold_start(v);
    let pending = first_wins(files);
    lemma_fold_start(v);
    lemma_fold_monotone(st, pending);
    let end = fold_all(st, pending);
    if !rescan_changes(v, dirs, files) {
        lemma_unchanged_fold(st, pending);
        assert(r.files =~= v.files);
    }
    if i >= v.files.len() {
        lemma_fold_new(st, pending);
        lemma_fold_new_from(st, pending, i);
        assert(end.files[i].rel_path == end.names[i]);
        let n = choose|n: int|
            0 <= n < pending.len() && (#[trigger] pending[n]).0.rel_path == end.names[i];
        lemma_first_wins_member(files, n);
        let l = choose|l: int| 0 <= l < files.len() && files[l] == pending[n];
        assert(files[l].0.rel_path.len() > 0);
        assert(end.live[i]);
    }
    assert(w.files[i] == r.files[i]);
    assert(!vanished(end, i));
    assert(end.live[i]);
    lemma_fold_live_from(st, pending, i);
    let n = choose|n: int| 0 <= n < pending.len() && (#[trigger] pending[n]).0 == end.files[i];
    let k = lemma_first_wins_first(files, n);
    assert(files[k].0 == w.files[i]);
}

proof fn lemma_fold_live_from<T>(st: Fold<T>, files: Seq<(FileView, T)>, i: int)
    requires
        fold_wf(st),
        0 <= i < fold_all(st, files).files.len(),
        fold_all(st, files).live[i],
        i < st.live.len() ==> !st.live[i],
        fold_all(st, files).files[i].rel_path.len() > 0,
    ensures
        exists|n: int|
            0 <= n < files.len() && (#[trigger] files[n]).0 == fold_all(st, files).files[i],
    decreases files.len(),
{
    if files.len() > 0 {
        let front = files.drop_last();
        let mid = fold_all(st, front);
        let end = fold_all(st, files);
        let last = files[files.len() - 1];
        lemma_fold_monotone(st, front);
        lemma_fold_monotone(st, files);
        lemma_index_named(mid.names, last.0.rel_path);
        if index_named(mid.names, last.0.rel_path) == Some(i) || i == mid.files.len() {
            assert(last.0 == end.files[i]);
        } else {
            assert(mid.files[i] == end.files[i]);
            lemma_fold_live_from(st, front, i);
            let n = choose|n: int| 0 <= n < front.len() && (#[trigger] front[n]).0 == mid.files[i];
            assert(files[n].0 == end.files[i]);
        }
    }
}

/// New files are appended in the order the scan names them, with no gap: of the
/// paths that had no index before, the one named first gets the old end, and each
/// later one an index behind those named before it.
pub proof fn law_new_files_are_appended_in_scan_order<T>(
    v: LiveView<T>,
    dirs: Seq<DirView>,
    files: Seq<(FileView, T)>,
    i: int,
    j: int,
    a: int,
    b: int,
)
    requires
        live_wf(v),
        v.files.len() <= i,
        v.files.len() <= j,
        i < after_rescan(v, dirs, files).files.len(),
        j < after_rescan(v, dirs, files).files.len(),
        is_first(files, a),
        is_first(files, b),
        after_rescan(v, dirs, files).names[i] == files[a].0.rel_path,
        after_rescan(v, dirs, files).names[j] == files[b].0.rel_path,
        a < b,
    ensures
        i < j,
{
    let pending = first_wins(files);
    let st = fold_start(v);
    lemma_fold_start(v);
    lemma_fold_monotone(st, pending);
    let (m, n) = lemma_first_wins_before(files, a, b);
    assert forall|c: int, d: int| 0 <= c < d < pending.len() implies (
    #[trigger] pending[c]).0.rel_path != (#[trigger] pending[d]).0.rel_path by {
        lemma_first_wins_distinct(files, c, d);
    }
    if !rescan_changes(v, dirs, files) {
        lemma_unchanged_fold(st, pending);
    }
    lemma_fold_order(st, pending, i, j, m, n);
}

proof fn lemma_first_wins_before<T>(files: Seq<(FileView, T)>, a: int, b: int) -> (out: (int, int))
    requires
        is_first(files, a),
        is_first(files, b),
        a < b,
    ensures
        0 <= out.0 < out.1 < first_wins(files).len(),
        first_wins(files)[out.0] == files[a],
        first_wins(files)[out.1] == files[b],
{
    let m = lemma_first_wins_place(files, a);
    let n = lemma_first_wins_place(files, b);
    let short = files.take(b);
    assert(short.take(a) =~= files.take(a));
    assert forall|l: int| 0 <= l < a implies (#[trigger] short[l]).0.rel_path
        != short[a].0.rel_path by {
        assert(files[l].0.rel_path != files[a].0.rel_path);
    }
    let again = lemma_first_wins_place(short, a);
    (m, n)
}

proof fn lemma_fold_order<T>(
    st: Fold<T>,
    files: Seq<(FileView, T)>,
    i: int,
    j: int,
    m: int,
    n: int,
)
    requires
        fold_wf(st),
        st.names.len() <= i < fold_all(st, files).names.len(),
        st.names.len() <= j < fold_all(st, files).names.len(),
        0 <= m < n < files.len(),
        fold_all(st, files).names[i] == files[m].0.rel_path,
        fold_all(st, files).names[j] == files[n].0.rel_path,
        forall|c: int, d: int|
            0 <= c < d < files.len() ==> (#[trigger] files[c]).0.rel_path != (
            #[trigger] files[d]).0.rel_path,
    ensures
        i < j,
    decreases files.len(),
{
    let front = files.drop_last();
    let mid = fold_all(st, front);
    lemma_fold_monotone(st, front);
    lemma_fold_names(st, front, Seq::empty());
    let last = files[files.len() - 1];
    lemma_index_named(mid.names, last.0.rel_path);
    assert forall|c: int, d: int| 0 <= c < d < front.len() implies (
    #[trigger] front[c]).0.rel_path != (#[trigger] front[d]).0.rel_path by {
        assert(files[c].0.rel_path != files[d].0.rel_path);
    }
    assert forall|l: int| st.names.len() <= l < mid.names.len() implies #[trigger] mid.names[l]
        != last.0.rel_path by {
        lemma_fold_new_from(st, front, l);
        let c = choose|c: int| 0 <= c < front.len() && (#[trigger] front[c]).0.rel_path == mid.names[l];
        assert(files[c].0.rel_path != files[files.len() - 1].0.rel_path);
    }
    let end = fold_all(st, files);
    if n == files.len() - 1 {
        if j < mid.names.len() {
            assert(end.names[j] == mid.names[j]);
        }
        assert(files[m].0.rel_path != last.0.rel_path);
        if i >= mid.names.len() {
            assert(end.names[i] == last.0.rel_path);
        }
    } else {
        assert(files[m].0.rel_path != last.0.rel_path);
        assert(files[n].0.rel_path != last.0.rel_path);
        if i >= mid.names.len() {
            assert(end.names[i] == last.0.rel_path);
        }
        if j >= mid.names.len() {
            assert(end.names[j] == last.0.rel_path);
        }
        assert(end.names[i] == mid.names[i] && end.names[j] == mid.names[j]);
        lemma_fold_order(st, front, i, j, m, n);
    }
}

/// A rescan says that something changed exactly where the listing differs: a
/// file's entry, the number of files, or the directories. What is published then
/// is the new listing under the next version; otherwise nothing moves at all.
pub proof fn law_a_change_is_told_and_published<T>(
    v: LiveView<T>,
    dirs: Seq<DirView>,
    files: Seq<(FileView, T)>,
)
    requires
        live_wf(v),
        v.version < u64::MAX,
        forall|i: int, j: int|
            0 <= i < j < v.dirs.len() ==> (#[trigger] v.dirs[i]).rel_path != (
            #[trigger] v.dirs[j]).rel_path,
        forall|i: int, j: int|
            0 <= i < j < dirs.len() ==> (#[trigger] dirs[i]).rel_path != (
            #[trigger] dirs[j]).rel_path,
        paths_given(files),
    ensures
        rescan_changes(v, dirs, files) <==> {
            ||| after_rescan(v, dirs, files).files != v.files
            ||| exists|i: int| 0 <= i < dirs.len() && !v.dirs.contains(#[trigger] dirs[i])
            ||| exists|i: int| 0 <= i < v.dirs.len() && !dirs.contains(#[trigger] v.dirs[i])
        },
        rescan_changes(v, dirs, files) ==> {
            let w = after_rescan(v, dirs, files);
            &&& w.version == v.version + 1
            &&& w.dirs == dirs
            &&& w.encoded == manifest_bytes(ManifestView { dirs, files: w.files })
        },
        !rescan_changes(v, dirs, files) ==> after_rescan(v, dirs, files) == v,
{
    let r = rescanned(v, files);
    let st = fold_start(v);
    let pending = first_wins(files);
    lemma_fold_start(v);
    lemma_fold_monotone(st, pending);
    assert forall|k: int| 0 <= k < pending.len() implies (#[trigger] pending[k]).0.rel_path.len()
        > 0 by {
        lemma_first_wins_member(files, k);
        let l = choose|l: int| 0 <= l < files.len() && files[l] == pending[k];
        assert(files[l].0.rel_path.len() > 0);
    }
    assert forall|a: int, b: int| 0 <= a < b < pending.len() implies (
    #[trigger] pending[a]).0.rel_path != (#[trigger] pending[b]).0.rel_path by {
        lemma_first_wins_distinct(files, a, b);
    }
    lemma_fold_changes(st, pending);
    lemma_dirs_compared(v.dirs, dirs);
    if !r.changed {
        lemma_unchanged_fold(st, pending);
        assert(r.files =~= v.files);
    } else {
        let end = fold_all(st, pending);
        if end.changed {
            let i = choose|i: int|
                0 <= i < end.files.len() && (i >= v.files.len() || end.files[i] != v.files[i])
                    && #[trigger] end.live[i];
            assert(!vanished(end, i));
            assert(r.files[i] == end.files[i]);
            assert(r.files != v.files);
        } else {
            let i = choose|i: int| 0 <= i < end.files.len() && #[trigger] vanished(end, i);
            lemma_unchanged_fold(st, pending);
            assert(r.files[i] != v.files[i]);
        }
    }
}

proof fn lemma_fold_changes<T>(st: Fold<T>, files: Seq<(FileView, T)>)
    requires
        fold_wf(st),
        !st.changed,
        paths_given(files),
        forall|c: int, d: int|
            0 <= c < d < files.len() ==> (#[trigger] files[c]).0.rel_path != (
            #[trigger] files[d]).0.rel_path,
    ensures
        fold_all(st, files).changed ==> exists|i: int|
            0 <= i < fold_all(st, files).files.len() && (i >= st.files.len() || fold_all(
                st,
                files,
            ).files[i] != st.files[i]) && #[trigger] fold_all(st, files).live[i],
    decreases files.len(),
{
    if files.len() > 0 {
        let front = files.drop_last();
        let mid = fold_all(st, front);
        let end = fold_all(st, files);
        let last = files[files.len() - 1];
        assert forall|c: int, d: int| 0 <= c < d < front.len() implies (
        #[trigger] front[c]).0.rel_path != (#[trigger] front[d]).0.rel_path by {
            assert(files[c].0.rel_path != files[d].0.rel_path);
        }
        assert forall|i: int| 0 <= i < front.len() implies (
        #[trigger] front[i]).0.rel_path.len() > 0 by {
            assert(files[i].0.rel_path.len() > 0);
        }
        lemma_fold_changes(st, front);
        lemma_fold_monotone(st, front);
        lemma_fold_monotone(st, files);
        lemma_fold_names(st, front, last.0.rel_path);
        lemma_index_named(mid.names, last.0.rel_path);
        lemma_index_named(st.names, last.0.rel_path);
        assert(last.0.rel_path.len() > 0);
        if end.changed {
            if mid.changed {
                let i = choose|i: int|
                    0 <= i < mid.files.len() && (i >= st.files.len() || mid.files[i]
                        != st.files[i]) && #[trigger] mid.live[i];
                if index_named(mid.names, last.0.rel_path) == Some(i) {
                    if i < st.files.len() {
                        assert(mid.names[i] == st.names[i]);
                        if names_path(front, st.names[i]) {
                            let c = choose|c: int|
                                0 <= c < front.len() && (#[trigger] front[c]).0.rel_path
                                    == st.names[i];
                            assert(files[c].0.rel_path != files[files.len() - 1].0.rel_path);
                        }
                        lemma_fold_untouched(st, front, i);
                    }
                    assert(end.live[i]);
                } else {
                    assert(end.files[i] == mid.files[i]);
                    assert(end.live[i]);
                }
            } else {
                lemma_unchanged_fold(st, front);
                match index_named(mid.names, last.0.rel_path) {
                    Some(i) => {
                        assert(end.live[i]);
                        assert(end.files[i] == last.0);
                    },
                    None => {
                        assert(end.live[st.files.len() as int]);
                    },
                }
            }
        }
    }
}

proof fn lemma_dirs_compared(a: Seq<DirView>, b: Seq<DirView>)
    requires
        forall|i: int, j: int|
            0 <= i < j < a.len() ==> (#[trigger] a[i]).rel_path != (#[trigger] a[j]).rel_path,
        forall|i: int, j: int|
            0 <= i < j < b.len() ==> (#[trigger] b[i]).rel_path != (#[trigger] b[j]).rel_path,
    ensures
        dirs_changed(a, b) <==> {
            ||| exists|i: int| 0 <= i < b.len() && !a.contains(#[trigger] b[i])
            ||| exists|i: int| 0 <= i < a.len() && !b.contains(#[trigger] a[i])
        },
{
    lemma_dir_is_contains(a, b);
    lemma_dir_is_contains(b, a);
    if dirs_within(a, b) && dirs_within(b, a) {
        assert(a.to_set() =~= b.to_set());
        a.unique_seq_to_set();
        b.unique_seq_to_set();
    }
}

proof fn lemma_dir_is_contains(a: Seq<DirView>, b: Seq<DirView>)
    requires
        forall|i: int, j: int|
            0 <= i < j < a.len() ==> (#[trigger] a[i]).rel_path != (#[trigger] a[j]).rel_path,
    ensures
        dirs_within(a, b) <==> forall|i: int| 0 <= i < b.len() ==> a.contains(#[trigger] b[i]),
        a.no_duplicates(),
{
    assert forall|i: int| 0 <= i < b.len() implies dir_is(a, #[trigger] b[i]) == a.contains(
        b[i],
    ) by {
        crate::delta::lemma_last_at(a, b[i].rel_path);
        if a.contains(b[i]) {
            let j = choose|j: int| 0 <= j < a.len() && a[j] == b[i];
            let at = last_at(a, b[i].rel_path)->Some_0;
            assert(a[j].rel_path == b[i].rel_path);
            assert(at == j);
        }
        if dir_is(a, b[i]) {
            let at = last_at(a, b[i].rel_path)->Some_0;
            assert(a[at] == b[i]);
        }
    }
}

/// The first listing is the first scan: each file at its place with its handle
/// behind it, and the directories as they were found.
pub proof fn law_the_first_listing_is_the_first_scan<T>(
    dirs: Seq<DirView>,
    files: Seq<(FileView, T)>,
    i: int,
)
    ensures
        ({
            let v = first_tree(dirs, files);
            &&& v.version == 1
            &&& v.dirs == dirs
            &&& v.files.len() == files.len()
            &&& v.slots.len() == files.len()
            &&& v.encoded == manifest_bytes(ManifestView { dirs, files: v.files })
            &&& 0 <= i < files.len() ==> v.files[i] == files[i].0 && v.slots[i] == Some(files[i].1)
                && v.names[i] == files[i].0.rel_path
        }),
{
}

/// The counts are those of the files that are listed, and of no tombstone.
pub proof fn law_counts_are_of_listed_files(files: Seq<FileView>)
    ensures
        live_count(files) == files.filter(|file: FileView| file.rel_path.len() > 0).len(),
        live_bytes(files) == files.filter(|file: FileView| file.rel_path.len() > 0).fold_left(
            0nat,
            |sum: nat, file: FileView| sum + file.size as nat,
        ),
    decreases files.len(),
{
    reveal(Seq::filter);
    if files.len() > 0 {
        law_counts_are_of_listed_files(files.drop_last());
        let keep = |file: FileView| file.rel_path.len() > 0;
        let kept = files.filter(keep);
        if keep(files.last()) {
            assert(kept.drop_last() =~= files.drop_last().filter(keep));
        }
    }
}

} // verus!
