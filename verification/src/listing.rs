//! A directory listing, as a scan of a picked folder hands it over.
use crate::manifest::{dir_views, DirEntry, DirView, FileEntry, FileView};
use crate::live_state::given_views;
use crate::text::{chars_of, find_char, first_at, opt_text};
use vstd::prelude::*;
use vstd::slice::slice_subrange;

verus! {

/// Why a listing is refused.
#[derive(Debug, Clone, Copy, PartialEq, Eq, Structural)]
pub enum ListingError {
    DirPath,
    RelPath,
    Size,
    Handle,
}

impl ListingError {
    pub open spec fn text(self) -> Seq<char> {
        match self {
            ListingError::DirPath => "dir path must be a string"@,
            ListingError::RelPath => "file.rel_path missing"@,
            ListingError::Size => "file.size missing"@,
            ListingError::Handle => "file.handle must be a FileSystemFileHandle"@,
        }
    }

    /// What went wrong, in words.
    pub fn message(self) -> (text: &'static str)
        ensures
            text@ == self.text(),
    {
        match self {
            ListingError::DirPath => "dir path must be a string",
            ListingError::RelPath => "file.rel_path missing",
            ListingError::Size => "file.size missing",
            ListingError::Handle => "file.handle must be a FileSystemFileHandle",
        }
    }
}

/// Whether one component of a path is a name, and not a way around the tree.
pub open spec fn safe_part(part: Seq<char>) -> bool {
    part.len() > 0 && part != seq!['.'] && part != seq!['.', '.']
}

/// Whether every `/`-separated component is a name.
pub open spec fn safe_parts(path: Seq<char>) -> bool
    decreases path.len(),
{
    match first_at(path, '/') {
        None => safe_part(path),
        Some(i) => if 0 <= i < path.len() {
            safe_part(path.take(i)) && safe_parts(path.skip(i + 1))
        } else {
            false
        },
    }
}

/// Whether a path stays inside the tree it is joined to.
pub open spec fn is_safe_path(path: Seq<char>) -> bool {
    !path.contains('\\') && !path.contains('\0') && safe_parts(path)
}

fn part_ok(part: &[char]) -> (ok: bool)
    ensures
        ok == safe_part(part@),
{
    if part.len() == 0 {
        return false;
    }
    if part.len() == 1 && part[0] == '.' {
        assert(part@ =~= seq!['.']);
        return false;
    }
    if part.len() == 2 && part[0] == '.' && part[1] == '.' {
        assert(part@ =~= seq!['.', '.']);
        return false;
    }
    assert(part@ == seq!['.'] ==> part@.len() == 1 && part@[0] == '.');
    assert(part@ == seq!['.', '.'] ==> part@.len() == 2 && part@[0] == '.' && part@[1] == '.');
    true
}

fn holds_char(text: &[char], c: char) -> (has: bool)
    ensures
        has == text@.contains(c),
{
    let mut i: usize = 0;
    while i < text.len()
        invariant
            0 <= i <= text@.len(),
            forall|j: int| 0 <= j < i ==> #[trigger] text@[j] != c,
        decreases text@.len() - i,
    {
        if text[i] == c {
            return true;
        }
        i += 1;
    }
    false
}

/// Whether a path stays inside the tree it is joined to: relative, with `/`
/// between names, and none of them `.` or `..`.
#[must_use]
pub fn safe_rel_path(path: &str) -> (safe: bool)
    ensures
        safe == is_safe_path(path@),
{
    let chars = chars_of(path);
    if holds_char(chars.as_slice(), '\\') || holds_char(chars.as_slice(), '\0') {
        return false;
    }
    let total: usize = chars.len();
    let mut at: usize = 0;
    assert(chars@.skip(0) =~= chars@);
    loop
        invariant
            0 <= at <= total,
            total == chars@.len(),
            chars@ == path@,
            !path@.contains('\\'),
            !path@.contains('\0'),
            safe_parts(path@) == safe_parts(path@.skip(at as int)),
        decreases total - at,
    {
        let rest = slice_subrange(chars.as_slice(), at, total);
        assert(rest@ =~= path@.skip(at as int));
        match find_char(rest, '/') {
            None => return part_ok(rest),
            Some(i) => {
                let part = slice_subrange(rest, 0, i);
                assert(part@ =~= rest@.take(i as int));
                if !part_ok(part) {
                    return false;
                }
                assert(rest@.skip(i as int + 1) =~= path@.skip(at + i + 1));
                at = at + i + 1;
            },
        }
    }
}

/// A safe path is not empty, does not start at the root, and no component of it
/// leads up.
pub proof fn law_safe_paths_stay_inside(path: Seq<char>)
    requires
        is_safe_path(path),
    ensures
        path.len() > 0,
        path[0] != '/',
        path != seq!['.', '.'],
        path.len() >= 3 ==> path.take(3) != seq!['.', '.', '/'],
{
    if path.len() > 0 && path[0] == '/' {
        assert(path.take(0).len() == 0);
    }
    if path == seq!['.', '.'] {
        crate::text::lemma_first_at(path, '/', 2);
    }
    if path.len() >= 3 && path.take(3) == seq!['.', '.', '/'] {
        assert(path[0] == path.take(3)[0] && path[1] == path.take(3)[1] && path[2] == path.take(
            3,
        )[2]);
        crate::text::lemma_first_at(path, '/', 2);
        assert(path.take(2) =~= seq!['.', '.']);
    }
}

/// Two safe paths joined by `/` are a safe path.
pub proof fn law_safe_paths_join(a: Seq<char>, b: Seq<char>)
    requires
        is_safe_path(a),
        is_safe_path(b),
    ensures
        is_safe_path(a + seq!['/'] + b),
{
    lemma_parts_join(a, b);
    let joined = a + seq!['/'] + b;
    assert forall|c: char| (c == '\\' || c == '\0') implies !joined.contains(c) by {
        if joined.contains(c) {
            let i = choose|i: int| 0 <= i < joined.len() && joined[i] == c;
            if i < a.len() {
                assert(a[i] == c);
            } else if i > a.len() {
                assert(b[i - a.len() - 1] == c);
            }
        }
    }
}

proof fn lemma_slash(path: Seq<char>)
    ensures
        match first_at(path, '/') {
            None => forall|i: int| 0 <= i < path.len() ==> #[trigger] path[i] != '/',
            Some(n) => 0 <= n < path.len() && path[n] == '/' && forall|i: int|
                0 <= i < n ==> #[trigger] path[i] != '/',
        },
    decreases path.len(),
{
    if path.len() > 0 && path[0] != '/' {
        let tail = path.skip(1);
        lemma_slash(tail);
        assert forall|i: int| 1 <= i < path.len() implies path[i] == #[trigger] tail[i - 1] by {}
        match first_at(path, '/') {
            None => {
                assert forall|i: int| 0 <= i < path.len() implies #[trigger] path[i] != '/' by {
                    if i > 0 {
                        assert(tail[i - 1] == path[i]);
                    }
                }
            },
            Some(n) => {
                assert(tail[n - 1] == path[n]);
                assert forall|i: int| 0 <= i < n implies #[trigger] path[i] != '/' by {
                    if i > 0 {
                        assert(tail[i - 1] == path[i]);
                    }
                }
            },
        }
    }
}

proof fn lemma_parts_join(a: Seq<char>, b: Seq<char>)
    requires
        safe_parts(a),
        safe_parts(b),
    ensures
        safe_parts(a + seq!['/'] + b),
    decreases a.len(),
{
    let joined = a + seq!['/'] + b;
    lemma_slash(a);
    match first_at(a, '/') {
        None => {
            crate::text::lemma_first_at(joined, '/', a.len() as int);
            assert(joined.take(a.len() as int) =~= a);
            assert(joined.skip(a.len() as int + 1) =~= b);
        },
        Some(n) => {
            assert forall|i: int| 0 <= i < n implies #[trigger] joined[i] != '/' by {
                assert(joined[i] == a[i]);
            }
            crate::text::lemma_first_at(joined, '/', n);
            assert(joined.take(n) =~= a.take(n));
            lemma_parts_join(a.skip(n + 1), b);
            assert(joined.skip(n + 1) =~= a.skip(n + 1) + seq!['/'] + b);
        },
    }
}

/// The mode every listed directory is served with.
pub const DIR_MODE: u32 = 493;

/// The mode every listed file is served with.
pub const FILE_MODE: u32 = 420;

/// One file of a listing, with what the scan found of it.
#[derive(Debug, Clone, PartialEq, Eq)]
pub struct ListedFile<H> {
    pub rel_path: Option<String>,
    pub size: Option<u64>,
    pub mtime: Option<i64>,
    pub handle: Option<H>,
}

pub struct ListedView<H> {
    pub rel_path: Option<Seq<char>>,
    pub size: Option<u64>,
    pub mtime: Option<i64>,
    pub handle: Option<H>,
}

impl<H> View for ListedFile<H> {
    type V = ListedView<H>;

    open spec fn view(&self) -> ListedView<H> {
        ListedView {
            rel_path: opt_text(self.rel_path),
            size: self.size,
            mtime: self.mtime,
            handle: self.handle,
        }
    }
}

pub open spec fn listed_views<H>(s: Seq<ListedFile<H>>) -> Seq<ListedView<H>> {
    Seq::new(s.len(), |i: int| s[i]@)
}

pub open spec fn path_views(s: Seq<Option<String>>) -> Seq<Option<Seq<char>>> {
    Seq::new(s.len(), |i: int| opt_text(s[i]))
}

/// A listing that passed.
pub struct Scanned<H> {
    pub dirs: Vec<DirEntry>,
    pub files: Vec<(FileEntry, H)>,
}

/// The directories a listing names. Unsafe paths are left out; the first one
/// that is no path at all refuses the listing.
pub open spec fn listed_dirs(dirs: Seq<Option<Seq<char>>>) -> Result<Seq<DirView>, ListingError>
    decreases dirs.len(),
{
    if dirs.len() == 0 {
        Ok(Seq::empty())
    } else {
        match listed_dirs(dirs.drop_last()) {
            Err(e) => Err(e),
            Ok(front) => match dirs.last() {
                None => Err(ListingError::DirPath),
                Some(path) => if is_safe_path(path) {
                    Ok(front.push(DirView { rel_path: path, mode: DIR_MODE, mtime: 0 }))
                } else {
                    Ok(front)
                },
            },
        }
    }
}

/// What one listed file stands for: nothing where its path is unsafe.
pub open spec fn listed_file<H>(file: ListedView<H>) -> Result<
    Option<(FileView, H)>,
    ListingError,
> {
    match file.rel_path {
        None => Err(ListingError::RelPath),
        Some(path) => if !is_safe_path(path) {
            Ok(None)
        } else if file.size is None {
            Err(ListingError::Size)
        } else if file.handle is None {
            Err(ListingError::Handle)
        } else {
            Ok(
                Some(
                    (
                        FileView {
                            rel_path: path,
                            size: file.size->Some_0,
                            mode: FILE_MODE,
                            mtime: match file.mtime {
                                Some(t) => t,
                                None => 0,
                            },
                        },
                        file.handle->Some_0,
                    ),
                ),
            )
        },
    }
}

/// The files a listing names. Unsafe paths are left out; the first file that
/// lacks something refuses the listing.
pub open spec fn listed_files<H>(files: Seq<ListedView<H>>) -> Result<
    Seq<(FileView, H)>,
    ListingError,
>
    decreases files.len(),
{
    if files.len() == 0 {
        Ok(Seq::empty())
    } else {
        match listed_files(files.drop_last()) {
            Err(e) => Err(e),
            Ok(front) => match listed_file(files.last()) {
                Err(e) => Err(e),
                Ok(None) => Ok(front),
                Ok(Some(file)) => Ok(front.push(file)),
            },
        }
    }
}

proof fn lemma_dirs_err(dirs: Seq<Option<Seq<char>>>, n: int)
    requires
        0 <= n <= dirs.len(),
        listed_dirs(dirs.take(n)) is Err,
    ensures
        listed_dirs(dirs) == listed_dirs(dirs.take(n)),
    decreases dirs.len() - n,
{
    if n < dirs.len() {
        assert(dirs.take(n + 1).drop_last() =~= dirs.take(n));
        lemma_dirs_err(dirs, n + 1);
    } else {
        assert(dirs.take(n) =~= dirs);
    }
}

proof fn lemma_files_err<H>(files: Seq<ListedView<H>>, n: int)
    requires
        0 <= n <= files.len(),
        listed_files(files.take(n)) is Err,
    ensures
        listed_files(files) == listed_files(files.take(n)),
    decreases files.len() - n,
{
    if n < files.len() {
        assert(files.take(n + 1).drop_last() =~= files.take(n));
        lemma_files_err(files, n + 1);
    } else {
        assert(files.take(n) =~= files);
    }
}

fn parse_dirs(dirs: Vec<Option<String>>) -> (out: Result<Vec<DirEntry>, ListingError>)
    ensures
        match listed_dirs(path_views(dirs@)) {
            Err(e) => out == Err::<Vec<DirEntry>, ListingError>(e),
            Ok(v) => out is Ok && dir_views(out->Ok_0@) == v,
        },
{
    let ghost all = path_views(dirs@);
    let mut out: Vec<DirEntry> = Vec::new();
    assert(all.take(0) =~= Seq::empty());
    assert(dir_views(out@) =~= Seq::empty());
    for item in it: dirs
        invariant
            it.seq() == dirs@,
            all == path_views(dirs@),
            listed_dirs(all.take(it.index() as int)) == Ok::<Seq<DirView>, ListingError>(
                dir_views(out@),
            ),
    {
        let ghost i = it.index() as int;
        assert(all.take(i + 1).drop_last() =~= all.take(i));
        assert(all.take(i + 1).last() == opt_text(item));
        match item {
            None => {
                proof {
                    lemma_dirs_err(all, i + 1);
                }
                return Err(ListingError::DirPath);
            },
            Some(path) => {
                if safe_rel_path(path.as_str()) {
                    let ghost before = dir_views(out@);
                    let ghost view = DirView { rel_path: path@, mode: DIR_MODE, mtime: 0 };
                    out.push(DirEntry { rel_path: path, mode: DIR_MODE, mtime: 0 });
                    assert(dir_views(out@) =~= before.push(view));
                }
            },
        }
    }
    assert(all.take(all.len() as int) =~= all);
    Ok(out)
}

fn parse_files<H>(files: Vec<ListedFile<H>>) -> (out: Result<Vec<(FileEntry, H)>, ListingError>)
    ensures
        match listed_files(listed_views(files@)) {
            Err(e) => out == Err::<Vec<(FileEntry, H)>, ListingError>(e),
            Ok(v) => out is Ok && given_views(out->Ok_0@) == v,
        },
{
    let ghost all = listed_views(files@);
    let mut out: Vec<(FileEntry, H)> = Vec::new();
    assert(all.take(0) =~= Seq::empty());
    assert(given_views(out@) =~= Seq::empty());
    for item in it: files
        invariant
            it.seq() == files@,
            all == listed_views(files@),
            listed_files(all.take(it.index() as int)) == Ok::<Seq<(FileView, H)>, ListingError>(
                given_views(out@),
            ),
    {
        let ghost i = it.index() as int;
        assert(all.take(i + 1).drop_last() =~= all.take(i));
        assert(all.take(i + 1).last() == item@);
        proof {
            if listed_files(all.take(i + 1)) is Err {
                lemma_files_err(all, i + 1);
            }
        }
        let rel_path = match item.rel_path {
            None => return Err(ListingError::RelPath),
            Some(path) => path,
        };
        if safe_rel_path(rel_path.as_str()) {
            let size: u64 = match item.size {
                None => return Err(ListingError::Size),
                Some(size) => size,
            };
            let mtime: i64 = match item.mtime {
                None => 0,
                Some(mtime) => mtime,
            };
            let handle = match item.handle {
                None => return Err(ListingError::Handle),
                Some(handle) => handle,
            };
            let ghost before = given_views(out@);
            let ghost view = (
                FileView { rel_path: rel_path@, size, mode: FILE_MODE, mtime },
                handle,
            );
            out.push((FileEntry { rel_path, size, mode: FILE_MODE, mtime }, handle));
            assert(given_views(out@) =~= before.push(view));
        }
    }
    assert(all.take(all.len() as int) =~= all);
    Ok(out)
}

/// Reads a listing.
///
/// # Errors
/// A directory without a path, or a file without a path, a size or a handle.
/// Directories are looked at first.
pub fn parse_listing<H>(dirs: Vec<Option<String>>, files: Vec<ListedFile<H>>) -> (out: Result<
    Scanned<H>,
    ListingError,
>)
    ensures
        match (listed_dirs(path_views(dirs@)), listed_files(listed_views(files@))) {
            (Err(e), _) => out == Err::<Scanned<H>, ListingError>(e),
            (_, Err(e)) => out == Err::<Scanned<H>, ListingError>(e),
            (Ok(d), Ok(f)) => out is Ok && dir_views(out->Ok_0.dirs@) == d && given_views(
                out->Ok_0.files@,
            ) == f,
        },
{
    let dirs = match parse_dirs(dirs) {
        Err(e) => return Err(e),
        Ok(dirs) => dirs,
    };
    match parse_files(files) {
        Err(e) => Err(e),
        Ok(files) => Ok(Scanned { dirs, files }),
    }
}

/// Every path that a listing gets into the tree stays inside it.
pub proof fn law_listed_paths_are_safe<H>(
    dirs: Seq<Option<Seq<char>>>,
    files: Seq<ListedView<H>>,
)
    ensures
        listed_dirs(dirs) matches Ok(d) ==> forall|i: int|
            0 <= i < d.len() ==> is_safe_path((#[trigger] d[i]).rel_path),
        listed_files(files) matches Ok(f) ==> forall|i: int|
            0 <= i < f.len() ==> is_safe_path((#[trigger] f[i]).0.rel_path),
    decreases dirs.len() + files.len(),
{
    if dirs.len() > 0 {
        law_listed_paths_are_safe(dirs.drop_last(), Seq::<ListedView<H>>::empty());
    }
    if files.len() > 0 {
        law_listed_paths_are_safe(Seq::empty(), files.drop_last());
    }
}

/// Whether part of a path is one of its components: what stands between two
/// slashes, the ends of the path counted as such.
pub open spec fn is_component(path: Seq<char>, from: int, to: int) -> bool {
    &&& 0 <= from <= to <= path.len()
    &&& from == 0 || path[from - 1] == '/'
    &&& to == path.len() || path[to] == '/'
    &&& forall|i: int| from <= i < to ==> #[trigger] path[i] != '/'
}

proof fn lemma_components(path: Seq<char>)
    ensures
        safe_parts(path) <==> (forall|from: int, to: int| #[trigger]
            is_component(path, from, to) ==> safe_part(path.subrange(from, to))),
    decreases path.len(),
{
    lemma_slash(path);
    match first_at(path, '/') {
        None => {
            assert(path.subrange(0, path.len() as int) =~= path);
            assert(is_component(path, 0, path.len() as int));
            assert forall|from: int, to: int|
                safe_parts(path) && #[trigger] is_component(path, from, to) implies safe_part(
                path.subrange(from, to),
            ) by {
                assert(from == 0 || path[from - 1] == '/');
                assert(from == 0 && to == path.len());
            }
        },
        Some(n) => {
            let rest = path.skip(n + 1);
            lemma_components(rest);
            assert(is_component(path, 0, n));
            assert(path.subrange(0, n) =~= path.take(n));
            assert forall|from: int, to: int|
                safe_parts(path) && #[trigger] is_component(path, from, to) implies safe_part(
                path.subrange(from, to),
            ) by {
                if from <= n {
                    assert(from == 0 || path[from - 1] == '/');
                    assert(to <= n) by {
                        if to > n {
                            assert(path[n] != '/');
                        }
                    }
                } else {
                    lemma_component_behind(path, n, from, to);
                    assert(rest.subrange(from - n - 1, to - n - 1) =~= path.subrange(from, to));
                }
            }
            if forall|from: int, to: int| #[trigger]
                is_component(path, from, to) ==> safe_part(path.subrange(from, to)) {
                assert forall|from: int, to: int| #[trigger]
                    is_component(rest, from, to) implies safe_part(rest.subrange(from, to)) by {
                    lemma_component_ahead(path, n, from, to);
                    assert(rest.subrange(from, to) =~= path.subrange(from + n + 1, to + n + 1));
                }
            }
        },
    }
}

proof fn lemma_component_behind(path: Seq<char>, n: int, from: int, to: int)
    requires
        0 <= n < from,
        n < path.len(),
        is_component(path, from, to),
    ensures
        is_component(path.skip(n + 1), from - n - 1, to - n - 1),
{
    let rest = path.skip(n + 1);
    assert forall|i: int| from - n - 1 <= i < to - n - 1 implies #[trigger] rest[i] != '/' by {
        assert(path[i + n + 1] != '/');
    }
}

proof fn lemma_component_ahead(path: Seq<char>, n: int, from: int, to: int)
    requires
        0 <= n < path.len(),
        path[n] == '/',
        is_component(path.skip(n + 1), from, to),
    ensures
        is_component(path, from + n + 1, to + n + 1),
{
    let rest = path.skip(n + 1);
    assert forall|i: int| from + n + 1 <= i < to + n + 1 implies #[trigger] path[i] != '/' by {
        assert(rest[i - n - 1] != '/');
    }
}

/// A path is safe exactly where it holds neither a backslash nor a NUL and each of
/// its components is a name: not empty, not `.` and not `..`.
pub proof fn law_a_path_is_safe_by_its_components(path: Seq<char>)
    ensures
        is_safe_path(path) <==> !path.contains('\\') && !path.contains('\0') && (forall|
            from: int,
            to: int,
        | #[trigger]
            is_component(path, from, to) ==> to > from && path.subrange(from, to) != seq!['.']
                && path.subrange(from, to) != seq!['.', '.']),
{
    lemma_components(path);
    if safe_parts(path) {
        assert forall|from: int, to: int| #[trigger]
            is_component(path, from, to) implies to > from && path.subrange(from, to) != seq!['.']
            && path.subrange(from, to) != seq!['.', '.'] by {
            assert(safe_part(path.subrange(from, to)));
        }
    }
    if forall|from: int, to: int| #[trigger]
        is_component(path, from, to) ==> to > from && path.subrange(from, to) != seq!['.']
            && path.subrange(from, to) != seq!['.', '.'] {
        assert forall|from: int, to: int| #[trigger] is_component(path, from, to) implies safe_part(
            path.subrange(from, to),
        ) by {}
    }
}

/// A listing of directories passes where each has a path. It lists those that are
/// safe, in their order, all with mode 0755.
pub proof fn law_listed_directories_are_the_safe_ones(dirs: Seq<Option<Seq<char>>>)
    ensures
        listed_dirs(dirs) == (if dirs.contains(None) {
            Err(ListingError::DirPath)
        } else {
            Ok(
                dirs.filter(|path: Option<Seq<char>>| path is Some && is_safe_path(path->Some_0)).map_values(
                    |path: Option<Seq<char>>|
                        DirView { rel_path: path->Some_0, mode: 0o755, mtime: 0 },
                ),
            )
        }),
    decreases dirs.len(),
{
    reveal(Seq::filter);
    let safe = |path: Option<Seq<char>>| path is Some && is_safe_path(path->Some_0);
    let entry = |path: Option<Seq<char>>|
        DirView { rel_path: path->Some_0, mode: 0o755, mtime: 0 };
    if dirs.len() > 0 {
        let front = dirs.drop_last();
        law_listed_directories_are_the_safe_ones(front);
        if front.contains(None) {
            let i = choose|i: int| 0 <= i < front.len() && front[i] is None;
            assert(dirs[i] is None);
        }
        if dirs.contains(None) && dirs.last() is Some {
            let i = choose|i: int| 0 <= i < dirs.len() && dirs[i] is None;
            assert(front[i] is None);
        }
        if dirs.last() is None {
            assert(dirs[dirs.len() - 1] is None);
        }
        if safe(dirs.last()) {
            assert(front.filter(safe).push(dirs.last()).map_values(entry) =~= front.filter(
                safe,
            ).map_values(entry).push(entry(dirs.last())));
        }
    } else {
        assert(dirs.filter(safe).map_values(entry) =~= Seq::empty());
    }
}

/// Whether a listed file lacks something that it needs: a path, or with a safe path
/// a size or a handle.
pub open spec fn is_lacking<H>(file: ListedView<H>) -> bool {
    file.rel_path is None || (is_safe_path(file.rel_path->Some_0) && (file.size is None
        || file.handle is None))
}

/// A listing of files passes where none lacks anything. It lists those with a safe
/// path, in their order, each with its handle, its size, mode 0644 and the time it
/// was changed, or zero where none is given.
pub proof fn law_listed_files_are_the_safe_ones<H>(files: Seq<ListedView<H>>)
    requires
        forall|i: int| 0 <= i < files.len() ==> !is_lacking(#[trigger] files[i]),
    ensures
        listed_files(files) == Ok::<Seq<(FileView, H)>, ListingError>(
            files.filter(|file: ListedView<H>| is_safe_path(file.rel_path->Some_0)).map_values(
                |file: ListedView<H>|
                    (
                        FileView {
                            rel_path: file.rel_path->Some_0,
                            size: file.size->Some_0,
                            mode: 0o644,
                            mtime: file.mtime.unwrap_or(0),
                        },
                        file.handle->Some_0,
                    ),
            ),
        ),
    decreases files.len(),
{
    reveal(Seq::filter);
    let safe = |file: ListedView<H>| is_safe_path(file.rel_path->Some_0);
    let entry = |file: ListedView<H>|
        (
            FileView {
                rel_path: file.rel_path->Some_0,
                size: file.size->Some_0,
                mode: 0o644,
                mtime: file.mtime.unwrap_or(0),
            },
            file.handle->Some_0,
        );
    if files.len() > 0 {
        let front = files.drop_last();
        assert forall|i: int| 0 <= i < front.len() implies !is_lacking(#[trigger] front[i]) by {
            assert(front[i] == files[i]);
        }
        law_listed_files_are_the_safe_ones(front);
        assert(!is_lacking(files[files.len() - 1]));
        if safe(files.last()) {
            assert(front.filter(safe).push(files.last()).map_values(entry) =~= front.filter(
                safe,
            ).map_values(entry).push(entry(files.last())));
        }
    } else {
        assert(files.filter(safe).map_values(entry) =~= Seq::empty());
    }
}

/// The first file that lacks something refuses a listing, and says what: the path,
/// then the size, then the handle.
pub proof fn law_the_first_lacking_file_refuses<H>(files: Seq<ListedView<H>>, n: int)
    requires
        0 <= n < files.len(),
        is_lacking(files[n]),
        forall|i: int| 0 <= i < n ==> !is_lacking(#[trigger] files[i]),
    ensures
        listed_files(files) == Err::<Seq<(FileView, H)>, ListingError>(
            if files[n].rel_path is None {
                ListingError::RelPath
            } else if files[n].size is None {
                ListingError::Size
            } else {
                ListingError::Handle
            },
        ),
{
    let upto = files.take(n + 1);
    let front = files.take(n);
    assert(upto.drop_last() =~= front);
    assert forall|i: int| 0 <= i < front.len() implies !is_lacking(#[trigger] front[i]) by {
        assert(front[i] == files[i]);
    }
    law_listed_files_are_the_safe_ones(front);
    assert(upto.last() == files[n]);
    lemma_files_err(files, n + 1);
}

} // verus!
