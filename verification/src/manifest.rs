//! The share's tree listing, the deltas that change it, and the status byte
//! that leads every response.
use crate::codec::{
    bytes_of, fits16, i64_le, lemma_bytes_of_push, lemma_concat_assoc, lemma_i64_le, lemma_i64_of,
    lemma_many_canonical, lemma_many_parses, lemma_parse_step, lemma_prepend_nothing, lemma_split,
    lemma_text16_canonical, lemma_text16_parses, lemma_u32_le, lemma_u32_of, lemma_u64_le,
    lemma_u64_of, parse_i64, parse_many, parse_text16, parse_u32, parse_u64, prepend, put_i64,
    put_text16, put_u32, put_u64, text16, u32_le, u32_of, u64_le, Cursor, Parsed,
};
use crate::error::WireError;
use crate::text::is_blank;
use vstd::prelude::*;

verus! {

/// The status byte that leads a response.
#[derive(Debug, Clone, Copy, PartialEq, Eq, Structural)]
pub enum ReadStatus {
    Success,
    BadIndex,
    Io,
    LenOverCap,
}

impl ReadStatus {
    pub open spec fn byte(self) -> u8 {
        match self {
            ReadStatus::Success => 0,
            ReadStatus::BadIndex => 1,
            ReadStatus::Io => 2,
            ReadStatus::LenOverCap => 3,
        }
    }

    pub open spec fn of_byte(byte: u8) -> Option<ReadStatus> {
        if byte == 0 {
            Some(ReadStatus::Success)
        } else if byte == 1 {
            Some(ReadStatus::BadIndex)
        } else if byte == 2 {
            Some(ReadStatus::Io)
        } else if byte == 3 {
            Some(ReadStatus::LenOverCap)
        } else {
            None
        }
    }

    #[must_use]
    pub fn to_byte(self) -> (byte: u8)
        ensures
            byte == self.byte(),
    {
        match self {
            ReadStatus::Success => 0,
            ReadStatus::BadIndex => 1,
            ReadStatus::Io => 2,
            ReadStatus::LenOverCap => 3,
        }
    }

    /// # Errors
    /// The byte names no status.
    pub fn from_byte(byte: u8) -> (status: Result<Self, WireError>)
        ensures
            match ReadStatus::of_byte(byte) {
                Some(s) => status == Ok::<Self, WireError>(s),
                None => status == Err::<Self, WireError>(WireError::UnknownTag),
            },
    {
        match byte {
            0 => Ok(ReadStatus::Success),
            1 => Ok(ReadStatus::BadIndex),
            2 => Ok(ReadStatus::Io),
            3 => Ok(ReadStatus::LenOverCap),
            _ => Err(WireError::UnknownTag),
        }
    }
}

/// A status survives its byte, and no other byte names it.
pub proof fn law_status_round_trip(status: ReadStatus, byte: u8)
    ensures
        ReadStatus::of_byte(byte) == Some(status) <==> byte == status.byte(),
{
}

/// A directory of the share.
#[derive(Debug, Clone, PartialEq, Eq)]
pub struct DirEntry {
    pub rel_path: String,
    pub mode: u32,
    pub mtime: i64,
}

/// A file of the share. Its position in the listing is its identity; an empty
/// path marks a position whose file is gone.
#[derive(Debug, Clone, PartialEq, Eq)]
pub struct FileEntry {
    pub rel_path: String,
    pub size: u64,
    pub mode: u32,
    pub mtime: i64,
}

pub struct DirView {
    pub rel_path: Seq<char>,
    pub mode: u32,
    pub mtime: i64,
}

pub struct FileView {
    pub rel_path: Seq<char>,
    pub size: u64,
    pub mode: u32,
    pub mtime: i64,
}

impl View for DirEntry {
    type V = DirView;

    open spec fn view(&self) -> DirView {
        DirView { rel_path: self.rel_path@, mode: self.mode, mtime: self.mtime }
    }
}

impl View for FileEntry {
    type V = FileView;

    open spec fn view(&self) -> FileView {
        FileView {
            rel_path: self.rel_path@,
            size: self.size,
            mode: self.mode,
            mtime: self.mtime,
        }
    }
}

pub open spec fn tomb() -> FileView {
    FileView { rel_path: Seq::empty(), size: 0, mode: 0, mtime: 0 }
}

impl DirEntry {
    /// The same entry again.
    pub fn copy(&self) -> (out: Self)
        ensures
            out@ == self@,
    {
        DirEntry { rel_path: self.rel_path.clone(), mode: self.mode, mtime: self.mtime }
    }
}

impl FileEntry {
    /// Whether this position's file is gone.
    #[must_use]
    pub fn is_tombstone(&self) -> (gone: bool)
        ensures
            gone == (self@.rel_path.len() == 0),
    {
        is_blank(self.rel_path.as_str())
    }

    /// What a position whose file is gone holds.
    #[must_use]
    pub fn tombstone() -> (out: Self)
        ensures
            out@ == tomb(),
    {
        let out = FileEntry { rel_path: String::new(), size: 0, mode: 0, mtime: 0 };
        assert(out.rel_path@ =~= Seq::empty());
        out
    }

    /// The same entry again.
    pub fn copy(&self) -> (out: Self)
        ensures
            out@ == self@,
    {
        FileEntry {
            rel_path: self.rel_path.clone(),
            size: self.size,
            mode: self.mode,
            mtime: self.mtime,
        }
    }
}

/// The complete tree listing of a share.
#[derive(Debug, Clone, PartialEq, Eq)]
pub struct MountManifest {
    pub dirs: Vec<DirEntry>,
    pub files: Vec<FileEntry>,
}

pub struct ManifestView {
    pub dirs: Seq<DirView>,
    pub files: Seq<FileView>,
}

pub open spec fn dir_views(s: Seq<DirEntry>) -> Seq<DirView> {
    Seq::new(s.len(), |i: int| s[i]@)
}

pub open spec fn file_views(s: Seq<FileEntry>) -> Seq<FileView> {
    Seq::new(s.len(), |i: int| s[i]@)
}

impl View for MountManifest {
    type V = ManifestView;

    open spec fn view(&self) -> ManifestView {
        ManifestView { dirs: dir_views(self.dirs@), files: file_views(self.files@) }
    }
}

impl Default for MountManifest {
    fn default() -> (out: Self)
        ensures
            out@ == (ManifestView { dirs: Seq::empty(), files: Seq::empty() }),
    {
        let out = MountManifest { dirs: Vec::new(), files: Vec::new() };
        assert(out@.dirs =~= Seq::empty());
        assert(out@.files =~= Seq::empty());
        out
    }
}

/// One directory: `path ‖ mode(u32) ‖ mtime(i64)`.
pub open spec fn dir_bytes(d: DirView) -> Seq<u8> {
    text16(d.rel_path) + (u32_le(d.mode) + i64_le(d.mtime))
}

pub open spec fn put_dir() -> spec_fn(DirView) -> Seq<u8> {
    |d: DirView| dir_bytes(d)
}

pub open spec fn parse_dir(s: Seq<u8>) -> Parsed<DirView> {
    match parse_text16(s) {
        Err(e) => Err(e),
        Ok((rel_path, s1)) => match parse_u32(s1) {
            Err(e) => Err(e),
            Ok((mode, s2)) => match parse_i64(s2) {
                Err(e) => Err(e),
                Ok((mtime, s3)) => Ok((DirView { rel_path, mode, mtime }, s3)),
            },
        },
    }
}

pub open spec fn get_dir() -> spec_fn(Seq<u8>) -> Parsed<DirView> {
    |s: Seq<u8>| parse_dir(s)
}

pub open spec fn dir_fits() -> spec_fn(DirView) -> bool {
    |d: DirView| fits16(d.rel_path)
}

/// One file: `path ‖ size(u64) ‖ mode(u32) ‖ mtime(i64)`.
pub open spec fn file_bytes(f: FileView) -> Seq<u8> {
    text16(f.rel_path) + (u64_le(f.size) + (u32_le(f.mode) + i64_le(f.mtime)))
}

pub open spec fn put_file() -> spec_fn(FileView) -> Seq<u8> {
    |f: FileView| file_bytes(f)
}

pub open spec fn parse_file(s: Seq<u8>) -> Parsed<FileView> {
    match parse_text16(s) {
        Err(e) => Err(e),
        Ok((rel_path, s1)) => match parse_u64(s1) {
            Err(e) => Err(e),
            Ok((size, s2)) => match parse_u32(s2) {
                Err(e) => Err(e),
                Ok((mode, s3)) => match parse_i64(s3) {
                    Err(e) => Err(e),
                    Ok((mtime, s4)) => Ok((FileView { rel_path, size, mode, mtime }, s4)),
                },
            },
        },
    }
}

pub open spec fn get_file() -> spec_fn(Seq<u8>) -> Parsed<FileView> {
    |s: Seq<u8>| parse_file(s)
}

pub open spec fn file_fits() -> spec_fn(FileView) -> bool {
    |f: FileView| fits16(f.rel_path)
}

pub proof fn lemma_dir_parses(d: DirView, r: Seq<u8>)
    requires
        fits16(d.rel_path),
    ensures
        parse_dir(dir_bytes(d) + r) == Ok::<(DirView, Seq<u8>), WireError>((d, r)),
{
    let tail = u32_le(d.mode) + (i64_le(d.mtime) + r);
    lemma_concat_assoc(u32_le(d.mode), i64_le(d.mtime), r);
    lemma_concat_assoc(text16(d.rel_path), u32_le(d.mode) + i64_le(d.mtime), r);
    lemma_text16_parses(d.rel_path, tail);
    lemma_u32_le(d.mode, i64_le(d.mtime) + r);
    lemma_i64_le(d.mtime, r);
}

pub proof fn lemma_dir_canonical(s: Seq<u8>)
    ensures
        parse_dir(s) matches Ok((d, r)) ==> fits16(d.rel_path) && s == dir_bytes(d) + r,
{
    if let Ok((d, r)) = parse_dir(s) {
        lemma_text16_canonical(s);
        let s1 = parse_text16(s)->Ok_0.1;
        lemma_u32_of(s1);
        let s2 = s1.skip(4);
        lemma_i64_of(s2);
        lemma_concat_assoc(u32_le(d.mode), i64_le(d.mtime), r);
        lemma_concat_assoc(text16(d.rel_path), u32_le(d.mode) + i64_le(d.mtime), r);
    }
}

pub proof fn lemma_file_parses(f: FileView, r: Seq<u8>)
    requires
        fits16(f.rel_path),
    ensures
        parse_file(file_bytes(f) + r) == Ok::<(FileView, Seq<u8>), WireError>((f, r)),
{
    let tail2 = u32_le(f.mode) + (i64_le(f.mtime) + r);
    let tail1 = u64_le(f.size) + tail2;
    lemma_concat_assoc(u32_le(f.mode), i64_le(f.mtime), r);
    lemma_concat_assoc(u64_le(f.size), u32_le(f.mode) + i64_le(f.mtime), r);
    lemma_concat_assoc(
        text16(f.rel_path),
        u64_le(f.size) + (u32_le(f.mode) + i64_le(f.mtime)),
        r,
    );
    lemma_text16_parses(f.rel_path, tail1);
    lemma_u64_le(f.size, tail2);
    lemma_u32_le(f.mode, i64_le(f.mtime) + r);
    lemma_i64_le(f.mtime, r);
}

pub proof fn lemma_file_canonical(s: Seq<u8>)
    ensures
        parse_file(s) matches Ok((f, r)) ==> fits16(f.rel_path) && s == file_bytes(f) + r,
{
    if let Ok((f, r)) = parse_file(s) {
        lemma_text16_canonical(s);
        let s1 = parse_text16(s)->Ok_0.1;
        lemma_u64_of(s1);
        let s2 = s1.skip(8);
        lemma_u32_of(s2);
        let s3 = s2.skip(4);
        lemma_i64_of(s3);
        lemma_concat_assoc(u32_le(f.mode), i64_le(f.mtime), r);
        lemma_concat_assoc(u64_le(f.size), u32_le(f.mode) + i64_le(f.mtime), r);
        lemma_concat_assoc(
            text16(f.rel_path),
            u64_le(f.size) + (u32_le(f.mode) + i64_le(f.mtime)),
            r,
        );
    }
}

/// A counted list: `count(u32) ‖ item × count`.
pub open spec fn counted<T>(items: Seq<T>, put: spec_fn(T) -> Seq<u8>) -> Seq<u8> {
    u32_le(items.len() as u32) + bytes_of(items, put)
}

pub open spec fn parse_counted<T>(s: Seq<u8>, get: spec_fn(Seq<u8>) -> Parsed<T>) -> Parsed<
    Seq<T>,
> {
    match parse_u32(s) {
        Err(e) => Err(e),
        Ok((count, s1)) => parse_many(s1, count as nat, get),
    }
}

pub proof fn lemma_counted_parses<T>(
    items: Seq<T>,
    r: Seq<u8>,
    put: spec_fn(T) -> Seq<u8>,
    get: spec_fn(Seq<u8>) -> Parsed<T>,
)
    requires
        items.len() <= u32::MAX,
        forall|i: int, t: Seq<u8>|
            0 <= i < items.len() ==> #[trigger] get(put(items[i]) + t) == Ok::<
                (T, Seq<u8>),
                WireError,
            >((items[i], t)),
    ensures
        parse_counted(counted(items, put) + r, get) == Ok::<(Seq<T>, Seq<u8>), WireError>(
            (items, r),
        ),
{
    let count = items.len() as u32;
    lemma_concat_assoc(u32_le(count), bytes_of(items, put), r);
    lemma_u32_le(count, bytes_of(items, put) + r);
    lemma_many_parses(items, r, put, get);
}

pub proof fn lemma_counted_canonical<T>(
    s: Seq<u8>,
    put: spec_fn(T) -> Seq<u8>,
    get: spec_fn(Seq<u8>) -> Parsed<T>,
    ok: spec_fn(T) -> bool,
)
    requires
        forall|t: Seq<u8>|
            (#[trigger] get(t)) matches Ok((v, r)) ==> ok(v) && t == put(v) + r,
    ensures
        parse_counted(s, get) matches Ok((vs, r)) ==> {
            &&& vs.len() <= u32::MAX
            &&& s == counted(vs, put) + r
            &&& forall|i: int| 0 <= i < vs.len() ==> ok(#[trigger] vs[i])
        },
{
    if let Ok((vs, r)) = parse_counted(s, get) {
        lemma_u32_of(s);
        let count = u32_of(s);
        lemma_many_canonical(s.skip(4), count as nat, put, get, ok);
        lemma_concat_assoc(u32_le(count), bytes_of(vs, put), r);
    }
}

/// Whether every count and path fits its field.
pub open spec fn manifest_fits(m: ManifestView) -> bool {
    &&& m.dirs.len() <= u32::MAX
    &&& m.files.len() <= u32::MAX
    &&& forall|i: int| 0 <= i < m.dirs.len() ==> dir_fits()(#[trigger] m.dirs[i])
    &&& forall|i: int| 0 <= i < m.files.len() ==> file_fits()(#[trigger] m.files[i])
}

/// Wire layout: the counted directories, then the counted files.
pub open spec fn manifest_bytes(m: ManifestView) -> Seq<u8> {
    counted(m.dirs, put_dir()) + counted(m.files, put_file())
}

/// A manifest off the front of some bytes.
pub open spec fn parse_manifest(s: Seq<u8>) -> Parsed<ManifestView> {
    match parse_counted(s, get_dir()) {
        Err(e) => Err(e),
        Ok((dirs, s1)) => match parse_counted(s1, get_file()) {
            Err(e) => Err(e),
            Ok((files, s2)) => Ok((ManifestView { dirs, files }, s2)),
        },
    }
}

/// The whole of what was parsed, with nothing left over.
pub open spec fn whole<T>(parsed: Parsed<T>) -> Result<T, WireError> {
    match parsed {
        Err(e) => Err(e),
        Ok((v, rest)) => if rest.len() > 0 {
            Err(WireError::TrailingBytes)
        } else {
            Ok(v)
        },
    }
}

/// The manifest that `bytes` encode.
pub open spec fn manifest_of(bytes: Seq<u8>) -> Result<ManifestView, WireError> {
    whole(parse_manifest(bytes))
}

proof fn lemma_manifest_parses(m: ManifestView, r: Seq<u8>)
    requires
        manifest_fits(m),
    ensures
        parse_manifest(manifest_bytes(m) + r) == Ok::<(ManifestView, Seq<u8>), WireError>((m, r)),
{
    assert forall|i: int, t: Seq<u8>| 0 <= i < m.dirs.len() implies #[trigger] get_dir()(
        put_dir()(m.dirs[i]) + t,
    ) == Ok::<(DirView, Seq<u8>), WireError>((m.dirs[i], t)) by {
        assert(dir_fits()(m.dirs[i]));
        lemma_dir_parses(m.dirs[i], t);
    }
    assert forall|i: int, t: Seq<u8>| 0 <= i < m.files.len() implies #[trigger] get_file()(
        put_file()(m.files[i]) + t,
    ) == Ok::<(FileView, Seq<u8>), WireError>((m.files[i], t)) by {
        assert(file_fits()(m.files[i]));
        lemma_file_parses(m.files[i], t);
    }
    let files = counted(m.files, put_file());
    lemma_concat_assoc(counted(m.dirs, put_dir()), files, r);
    lemma_counted_parses(m.dirs, files + r, put_dir(), get_dir());
    lemma_counted_parses(m.files, r, put_file(), get_file());
}

proof fn lemma_manifest_canonical(s: Seq<u8>)
    ensures
        parse_manifest(s) matches Ok((m, r)) ==> manifest_fits(m) && s == manifest_bytes(m) + r,
{
    if let Ok((m, r)) = parse_manifest(s) {
        assert forall|t: Seq<u8>|
            (#[trigger] get_dir()(t)) matches Ok((d, u)) ==> dir_fits()(d) && t == put_dir()(d)
                + u by {
            lemma_dir_canonical(t);
        }
        assert forall|t: Seq<u8>|
            (#[trigger] get_file()(t)) matches Ok((f, u)) ==> file_fits()(f) && t == put_file()(
                f,
            ) + u by {
            lemma_file_canonical(t);
        }
        lemma_counted_canonical(s, put_dir(), get_dir(), dir_fits());
        let s1 = parse_counted(s, get_dir())->Ok_0.1;
        lemma_counted_canonical(s1, put_file(), get_file(), file_fits());
        lemma_concat_assoc(counted(m.dirs, put_dir()), counted(m.files, put_file()), r);
    }
}

/// A manifest reads back as what was encoded.
pub proof fn law_manifest_round_trip(m: ManifestView)
    requires
        manifest_fits(m),
    ensures
        manifest_of(manifest_bytes(m)) == Ok::<ManifestView, WireError>(m),
{
    lemma_manifest_parses(m, Seq::empty());
    assert(manifest_bytes(m) + Seq::<u8>::empty() =~= manifest_bytes(m));
}

/// The encoding is canonical: bytes that decode are, byte for byte, the encoding
/// of what they decode to.
pub proof fn law_manifest_canonical(bytes: Seq<u8>)
    ensures
        manifest_of(bytes) matches Ok(m) ==> manifest_fits(m) && manifest_bytes(m) == bytes,
{
    lemma_manifest_canonical(bytes);
    if let Ok(m) = manifest_of(bytes) {
        let r = parse_manifest(bytes)->Ok_0.1;
        assert(manifest_bytes(m) + r =~= manifest_bytes(m));
    }
}

/// No encoding is the beginning of another: a manifest cut short anywhere, or
/// with anything appended, does not decode.
pub proof fn law_manifest_cut_or_extended_is_refused(m: ManifestView, n: int, tail: Seq<u8>)
    requires
        manifest_fits(m),
        0 <= n < manifest_bytes(m).len(),
        tail.len() > 0,
    ensures
        manifest_of(manifest_bytes(m).take(n)) is Err,
        manifest_of(manifest_bytes(m) + tail) == Err::<ManifestView, WireError>(
            WireError::TrailingBytes,
        ),
{
    lemma_manifest_parses(m, tail);
    let bytes = manifest_bytes(m);
    let cut = bytes.take(n);
    let rest = bytes.skip(n);
    lemma_split(bytes, n);
    lemma_manifest_parses(m, Seq::empty());
    if let Ok(other) = manifest_of(cut) {
        law_manifest_canonical(cut);
        lemma_manifest_parses(other, rest);
    }
}

fn encode_path(out: &mut Vec<u8>, path: &str)
    requires
        fits16(path@),
    ensures
        final(out)@ == old(out)@ + text16(path@),
{
    put_text16(out, path)
}

pub(crate) fn put_file_entry(out: &mut Vec<u8>, file: &FileEntry)
    requires
        fits16(file.rel_path@),
    ensures
        final(out)@ == old(out)@ + file_bytes(file@),
{
    encode_path(out, file.rel_path.as_str());
    put_u64(out, file.size);
    put_u32(out, file.mode);
    put_i64(out, file.mtime);
    assert(out@ =~= old(out)@ + file_bytes(file@));
}

pub(crate) fn put_dirs(out: &mut Vec<u8>, dirs: &Vec<DirEntry>)
    requires
        dirs@.len() <= u32::MAX,
        forall|i: int| 0 <= i < dirs@.len() ==> fits16((#[trigger] dirs@[i]).rel_path@),
    ensures
        final(out)@ == old(out)@ + counted(dir_views(dirs@), put_dir()),
{
    let ghost all = dir_views(dirs@);
    put_u32(out, dirs.len() as u32);
    let ghost prefix = out@;
    assert(all.take(0) =~= Seq::empty());
    assert(prefix + Seq::<u8>::empty() =~= prefix);
    let mut i: usize = 0;
    while i < dirs.len()
        invariant
            0 <= i <= dirs@.len(),
            all == dir_views(dirs@),
            forall|j: int| 0 <= j < dirs@.len() ==> fits16((#[trigger] dirs@[j]).rel_path@),
            out@ == prefix + bytes_of(all.take(i as int), put_dir()),
        decreases dirs@.len() - i,
    {
        let ghost before = out@;
        encode_path(out, dirs[i].rel_path.as_str());
        put_u32(out, dirs[i].mode);
        put_i64(out, dirs[i].mtime);
        proof {
            assert(out@ =~= before + dir_bytes(all[i as int]));
            lemma_bytes_of_push(all.take(i as int), all[i as int], put_dir());
            assert(all.take(i as int + 1) =~= all.take(i as int).push(all[i as int]));
            assert(out@ =~= prefix + bytes_of(all.take(i as int + 1), put_dir()));
        }
        i += 1;
    }
    assert(all.take(i as int) =~= all);
    assert(out@ =~= old(out)@ + counted(all, put_dir()));
}

fn put_files(out: &mut Vec<u8>, files: &Vec<FileEntry>)
    requires
        files@.len() <= u32::MAX,
        forall|i: int| 0 <= i < files@.len() ==> fits16((#[trigger] files@[i]).rel_path@),
    ensures
        final(out)@ == old(out)@ + counted(file_views(files@), put_file()),
{
    let ghost all = file_views(files@);
    put_u32(out, files.len() as u32);
    let ghost prefix = out@;
    assert(all.take(0) =~= Seq::empty());
    assert(prefix + Seq::<u8>::empty() =~= prefix);
    let mut i: usize = 0;
    while i < files.len()
        invariant
            0 <= i <= files@.len(),
            all == file_views(files@),
            forall|j: int| 0 <= j < files@.len() ==> fits16((#[trigger] files@[j]).rel_path@),
            out@ == prefix + bytes_of(all.take(i as int), put_file()),
        decreases files@.len() - i,
    {
        put_file_entry(out, &files[i]);
        proof {
            lemma_bytes_of_push(all.take(i as int), all[i as int], put_file());
            assert(all.take(i as int + 1) =~= all.take(i as int).push(all[i as int]));
            assert(out@ =~= prefix + bytes_of(all.take(i as int + 1), put_file()));
        }
        i += 1;
    }
    assert(all.take(i as int) =~= all);
    assert(out@ =~= old(out)@ + counted(all, put_file()));
}

pub(crate) fn take_file(cursor: &mut Cursor) -> (out: Result<FileEntry, WireError>)
    requires
        old(cursor).wf(),
    ensures
        final(cursor).wf(),
        match parse_file(old(cursor).rest()) {
            Err(e) => out == Err::<FileEntry, WireError>(e),
            Ok((v, rest)) => out is Ok && out->Ok_0@ == v && final(cursor).rest() == rest,
        },
{
    let rel_path = match cursor.take_path() {
        Err(e) => return Err(e),
        Ok(v) => v,
    };
    let size: u64 = match cursor.take_u64() {
        Err(e) => return Err(e),
        Ok(v) => v,
    };
    let mode: u32 = match cursor.take_u32() {
        Err(e) => return Err(e),
        Ok(v) => v,
    };
    let mtime: i64 = match cursor.take_i64() {
        Err(e) => return Err(e),
        Ok(v) => v,
    };
    Ok(FileEntry { rel_path, size, mode, mtime })
}

fn take_dir(cursor: &mut Cursor) -> (out: Result<DirEntry, WireError>)
    requires
        old(cursor).wf(),
    ensures
        final(cursor).wf(),
        match parse_dir(old(cursor).rest()) {
            Err(e) => out == Err::<DirEntry, WireError>(e),
            Ok((v, rest)) => out is Ok && out->Ok_0@ == v && final(cursor).rest() == rest,
        },
{
    let rel_path = match cursor.take_path() {
        Err(e) => return Err(e),
        Ok(v) => v,
    };
    let mode: u32 = match cursor.take_u32() {
        Err(e) => return Err(e),
        Ok(v) => v,
    };
    let mtime: i64 = match cursor.take_i64() {
        Err(e) => return Err(e),
        Ok(v) => v,
    };
    Ok(DirEntry { rel_path, mode, mtime })
}

pub(crate) fn take_dirs(cursor: &mut Cursor) -> (out: Result<Vec<DirEntry>, WireError>)
    requires
        old(cursor).wf(),
    ensures
        final(cursor).wf(),
        match parse_counted(old(cursor).rest(), get_dir()) {
            Err(e) => out == Err::<Vec<DirEntry>, WireError>(e),
            Ok((v, rest)) => out is Ok && dir_views(out->Ok_0@) == v && final(cursor).rest()
                == rest,
        },
{
    let count: u32 = match cursor.take_u32() {
        Err(e) => return Err(e),
        Ok(v) => v,
    };
    let ghost list = cursor.rest();
    let mut items: Vec<DirEntry> = Vec::new();
    proof {
        lemma_prepend_nothing(parse_many(list, count as nat, get_dir()));
        assert(dir_views(items@) =~= Seq::empty());
    }
    let mut i: u32 = 0;
    while i < count
        invariant
            0 <= i <= count,
            cursor.wf(),
            parse_counted(old(cursor).rest(), get_dir()) == parse_many(
                list,
                count as nat,
                get_dir(),
            ),
            parse_many(list, count as nat, get_dir()) == prepend(
                dir_views(items@),
                parse_many(cursor.rest(), (count - i) as nat, get_dir()),
            ),
        decreases count - i,
    {
        proof {
            lemma_parse_step(dir_views(items@), cursor.rest(), (count - i) as nat, get_dir());
        }
        let item = match take_dir(cursor) {
            Err(e) => return Err(e),
            Ok(v) => v,
        };
        let ghost before = dir_views(items@);
        items.push(item);
        assert(dir_views(items@) =~= before.push(item@));
        i += 1;
    }
    assert(dir_views(items@) + Seq::<DirView>::empty() =~= dir_views(items@));
    Ok(items)
}

fn take_files(cursor: &mut Cursor) -> (out: Result<Vec<FileEntry>, WireError>)
    requires
        old(cursor).wf(),
    ensures
        final(cursor).wf(),
        match parse_counted(old(cursor).rest(), get_file()) {
            Err(e) => out == Err::<Vec<FileEntry>, WireError>(e),
            Ok((v, rest)) => out is Ok && file_views(out->Ok_0@) == v && final(cursor).rest()
                == rest,
        },
{
    let count: u32 = match cursor.take_u32() {
        Err(e) => return Err(e),
        Ok(v) => v,
    };
    let ghost list = cursor.rest();
    let mut items: Vec<FileEntry> = Vec::new();
    proof {
        lemma_prepend_nothing(parse_many(list, count as nat, get_file()));
        assert(file_views(items@) =~= Seq::empty());
    }
    let mut i: u32 = 0;
    while i < count
        invariant
            0 <= i <= count,
            cursor.wf(),
            parse_counted(old(cursor).rest(), get_file()) == parse_many(
                list,
                count as nat,
                get_file(),
            ),
            parse_many(list, count as nat, get_file()) == prepend(
                file_views(items@),
                parse_many(cursor.rest(), (count - i) as nat, get_file()),
            ),
        decreases count - i,
    {
        proof {
            lemma_parse_step(file_views(items@), cursor.rest(), (count - i) as nat, get_file());
        }
        let item = match take_file(cursor) {
            Err(e) => return Err(e),
            Ok(v) => v,
        };
        let ghost before = file_views(items@);
        items.push(item);
        assert(file_views(items@) =~= before.push(item@));
        i += 1;
    }
    assert(file_views(items@) + Seq::<FileView>::empty() =~= file_views(items@));
    Ok(items)
}

impl MountManifest {
    /// Whether every count and path fits its field, so that the listing can be
    /// encoded.
    #[must_use]
    pub fn fits(&self) -> (ok: bool)
        ensures
            ok == manifest_fits(self@),
    {
        if self.dirs.len() > u32::MAX as usize || self.files.len() > u32::MAX as usize {
            return false;
        }
        let mut i: usize = 0;
        while i < self.dirs.len()
            invariant
                0 <= i <= self.dirs@.len(),
                forall|k: int| 0 <= k < i ==> dir_fits()(#[trigger] self@.dirs[k]),
            decreases self.dirs@.len() - i,
        {
            assert(self@.dirs[i as int] == self.dirs@[i as int]@);
            if self.dirs[i].rel_path.as_str().as_bytes().len() > u16::MAX as usize {
                assert(!dir_fits()(self@.dirs[i as int]));
                return false;
            }
            i += 1;
        }
        let mut j: usize = 0;
        while j < self.files.len()
            invariant
                0 <= j <= self.files@.len(),
                forall|k: int| 0 <= k < j ==> file_fits()(#[trigger] self@.files[k]),
            decreases self.files@.len() - j,
        {
            assert(self@.files[j as int] == self.files@[j as int]@);
            if self.files[j].rel_path.as_str().as_bytes().len() > u16::MAX as usize {
                assert(!file_fits()(self@.files[j as int]));
                return false;
            }
            j += 1;
        }
        true
    }

    /// Encodes this listing. Its counts and paths have to fit their fields.
    #[must_use]
    pub fn encode(&self) -> (out: Vec<u8>)
        requires
            manifest_fits(self@),
        ensures
            out@ == manifest_bytes(self@),
    {
        let mut out: Vec<u8> = Vec::new();
        proof {
            assert forall|i: int| 0 <= i < self.dirs@.len() implies fits16(
                (#[trigger] self.dirs@[i]).rel_path@,
            ) by {
                assert(dir_fits()(self@.dirs[i]));
            }
            assert forall|i: int| 0 <= i < self.files@.len() implies fits16(
                (#[trigger] self.files@[i]).rel_path@,
            ) by {
                assert(file_fits()(self@.files[i]));
            }
        }
        put_dirs(&mut out, &self.dirs);
        put_files(&mut out, &self.files);
        assert(out@ =~= manifest_bytes(self@));
        out
    }

    /// # Errors
    /// The bytes are cut short, a path is not UTF-8, or bytes are left over.
    pub fn decode(bytes: &[u8]) -> (out: Result<Self, WireError>)
        ensures
            match manifest_of(bytes@) {
                Err(e) => out == Err::<Self, WireError>(e),
                Ok(m) => out is Ok && out->Ok_0@ == m,
            },
    {
        let mut cursor = Cursor::new(bytes);
        let dirs = match take_dirs(&mut cursor) {
            Err(e) => return Err(e),
            Ok(v) => v,
        };
        let files = match take_files(&mut cursor) {
            Err(e) => return Err(e),
            Ok(v) => v,
        };
        if cursor.remaining() > 0 {
            return Err(WireError::TrailingBytes);
        }
        Ok(MountManifest { dirs, files })
    }
}

/// A directory is written as its path, its mode and its time; a file has its size
/// between path and mode.
pub proof fn law_entries_are_laid_out_in_order(d: DirView, f: FileView)
    ensures
        dir_bytes(d) == text16(d.rel_path) + u32_le(d.mode) + i64_le(d.mtime),
        file_bytes(f) == text16(f.rel_path) + u64_le(f.size) + u32_le(f.mode) + i64_le(f.mtime),
{
    assert(dir_bytes(d) =~= text16(d.rel_path) + u32_le(d.mode) + i64_le(d.mtime));
    assert(file_bytes(f) =~= text16(f.rel_path) + u64_le(f.size) + u32_le(f.mode) + i64_le(
        f.mtime,
    ));
}

/// A listing is written as the number of its directories, the directories, the
/// number of its files, and the files.
pub proof fn law_a_manifest_is_laid_out_in_order(m: ManifestView)
    ensures
        manifest_bytes(m) == u32_le(m.dirs.len() as u32) + m.dirs.map_values(
            |d: DirView| dir_bytes(d),
        ).flatten() + u32_le(m.files.len() as u32) + m.files.map_values(
            |f: FileView| file_bytes(f),
        ).flatten(),
{
    crate::codec::law_items_are_written_in_order(m.dirs, put_dir());
    crate::codec::law_items_are_written_in_order(m.files, put_file());
    assert(m.dirs.map_values(|d: DirView| dir_bytes(d)) =~= m.dirs.map_values(put_dir()));
    assert(m.files.map_values(|f: FileView| file_bytes(f)) =~= m.files.map_values(put_file()));
    assert(manifest_bytes(m) =~= u32_le(m.dirs.len() as u32) + bytes_of(m.dirs, put_dir())
        + u32_le(m.files.len() as u32) + bytes_of(m.files, put_file()));
}

/// A position whose file is gone has an empty path, no bytes, no mode and no time.
pub proof fn law_a_tombstone_has_nothing()
    ensures
        tomb().rel_path.len() == 0,
        tomb().size == 0,
        tomb().mode == 0,
        tomb().mtime == 0,
{
}

} // verus!
