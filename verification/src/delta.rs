//! Changes to a listing. A delta names files by position, and applying one never
//! moves a file: a removed file leaves a tombstone where it stood.
use crate::codec::{
    bytes_of, fits16, lemma_bytes_of_push, lemma_concat_assoc, lemma_parse_step,
    lemma_prepend_nothing, lemma_split, lemma_text16_canonical, lemma_text16_parses, lemma_u32_le,
    lemma_u32_of, parse_many, parse_text16, parse_u32, prepend, put_text16, put_u32, text16, u32_le,
    Cursor, Parsed,
};
use crate::error::WireError;
use crate::manifest::{
    counted, dir_fits, dir_views, file_bytes, get_dir, lemma_counted_canonical,
    lemma_counted_parses, lemma_dir_canonical, lemma_dir_parses, lemma_file_canonical,
    lemma_file_parses, parse_counted, parse_file, put_dir, put_dirs, put_file_entry, take_dirs,
    take_file, tomb, whole, DirEntry, DirView, FileEntry, FileView, ManifestView, MountManifest,
};
use vstd::hash_map::StringHashMap;
use vstd::hash_set::StringHashSet;
use vstd::prelude::*;

verus! {

/// What changed between two listings.
#[derive(Debug, Clone, PartialEq, Eq)]
pub struct ManifestDelta {
    pub dirs_upserted: Vec<DirEntry>,
    pub dirs_removed: Vec<String>,
    pub files_upserted: Vec<(u32, FileEntry)>,
    pub files_removed: Vec<u32>,
}

pub struct DeltaView {
    pub dirs_upserted: Seq<DirView>,
    pub dirs_removed: Seq<Seq<char>>,
    pub files_upserted: Seq<(u32, FileView)>,
    pub files_removed: Seq<u32>,
}

pub open spec fn text_views(s: Seq<String>) -> Seq<Seq<char>> {
    Seq::new(s.len(), |i: int| s[i]@)
}

pub open spec fn slot_views(s: Seq<(u32, FileEntry)>) -> Seq<(u32, FileView)> {
    Seq::new(s.len(), |i: int| (s[i].0, s[i].1@))
}

impl View for ManifestDelta {
    type V = DeltaView;

    open spec fn view(&self) -> DeltaView {
        DeltaView {
            dirs_upserted: dir_views(self.dirs_upserted@),
            dirs_removed: text_views(self.dirs_removed@),
            files_upserted: slot_views(self.files_upserted@),
            files_removed: self.files_removed@,
        }
    }
}

pub open spec fn no_change() -> DeltaView {
    DeltaView {
        dirs_upserted: Seq::empty(),
        dirs_removed: Seq::empty(),
        files_upserted: Seq::empty(),
        files_removed: Seq::empty(),
    }
}

impl Default for ManifestDelta {
    fn default() -> (out: Self)
        ensures
            out@ == no_change(),
    {
        let out = ManifestDelta {
            dirs_upserted: Vec::new(),
            dirs_removed: Vec::new(),
            files_upserted: Vec::new(),
            files_removed: Vec::new(),
        };
        assert(out@.dirs_upserted =~= Seq::empty());
        assert(out@.dirs_removed =~= Seq::empty());
        assert(out@.files_upserted =~= Seq::empty());
        out
    }
}

pub open spec fn put_text() -> spec_fn(Seq<char>) -> Seq<u8> {
    |t: Seq<char>| text16(t)
}

pub open spec fn get_text() -> spec_fn(Seq<u8>) -> Parsed<Seq<char>> {
    |s: Seq<u8>| parse_text16(s)
}

pub open spec fn text_fits() -> spec_fn(Seq<char>) -> bool {
    |t: Seq<char>| fits16(t)
}

/// A file at its position: `index(u32) ‖ file`.
pub open spec fn put_slot() -> spec_fn((u32, FileView)) -> Seq<u8> {
    |v: (u32, FileView)| u32_le(v.0) + file_bytes(v.1)
}

pub open spec fn parse_slot(s: Seq<u8>) -> Parsed<(u32, FileView)> {
    match parse_u32(s) {
        Err(e) => Err(e),
        Ok((index, s1)) => match parse_file(s1) {
            Err(e) => Err(e),
            Ok((file, s2)) => Ok(((index, file), s2)),
        },
    }
}

pub open spec fn get_slot() -> spec_fn(Seq<u8>) -> Parsed<(u32, FileView)> {
    |s: Seq<u8>| parse_slot(s)
}

pub open spec fn slot_fits() -> spec_fn((u32, FileView)) -> bool {
    |v: (u32, FileView)| fits16(v.1.rel_path)
}

pub open spec fn put_index() -> spec_fn(u32) -> Seq<u8> {
    |x: u32| u32_le(x)
}

pub open spec fn get_index() -> spec_fn(Seq<u8>) -> Parsed<u32> {
    |s: Seq<u8>| parse_u32(s)
}

pub open spec fn any_index() -> spec_fn(u32) -> bool {
    |x: u32| true
}

/// Whether every count and path fits its field.
pub open spec fn delta_fits(d: DeltaView) -> bool {
    &&& d.dirs_upserted.len() <= u32::MAX
    &&& d.dirs_removed.len() <= u32::MAX
    &&& d.files_upserted.len() <= u32::MAX
    &&& d.files_removed.len() <= u32::MAX
    &&& forall|i: int| 0 <= i < d.dirs_upserted.len() ==> dir_fits()(#[trigger] d.dirs_upserted[i])
    &&& forall|i: int| 0 <= i < d.dirs_removed.len() ==> text_fits()(#[trigger] d.dirs_removed[i])
    &&& forall|i: int|
        0 <= i < d.files_upserted.len() ==> slot_fits()(#[trigger] d.files_upserted[i])
}

/// Wire layout: four counted lists, in field order.
pub open spec fn delta_bytes(d: DeltaView) -> Seq<u8> {
    counted(d.dirs_upserted, put_dir()) + (counted(d.dirs_removed, put_text()) + (counted(
        d.files_upserted,
        put_slot(),
    ) + counted(d.files_removed, put_index())))
}

pub open spec fn parse_delta(s: Seq<u8>) -> Parsed<DeltaView> {
    match parse_counted(s, get_dir()) {
        Err(e) => Err(e),
        Ok((dirs_upserted, s1)) => match parse_counted(s1, get_text()) {
            Err(e) => Err(e),
            Ok((dirs_removed, s2)) => match parse_counted(s2, get_slot()) {
                Err(e) => Err(e),
                Ok((files_upserted, s3)) => match parse_counted(s3, get_index()) {
                    Err(e) => Err(e),
                    Ok((files_removed, s4)) => Ok(
                        (
                            DeltaView { dirs_upserted, dirs_removed, files_upserted, files_removed },
                            s4,
                        ),
                    ),
                },
            },
        },
    }
}

/// The delta that `bytes` encode.
pub open spec fn delta_of(bytes: Seq<u8>) -> Result<DeltaView, WireError> {
    whole(parse_delta(bytes))
}

proof fn lemma_slot_parses(v: (u32, FileView), r: Seq<u8>)
    requires
        fits16(v.1.rel_path),
    ensures
        parse_slot(put_slot()(v) + r) == Ok::<((u32, FileView), Seq<u8>), WireError>((v, r)),
{
    lemma_concat_assoc(u32_le(v.0), file_bytes(v.1), r);
    lemma_u32_le(v.0, file_bytes(v.1) + r);
    lemma_file_parses(v.1, r);
}

proof fn lemma_slot_canonical(s: Seq<u8>)
    ensures
        parse_slot(s) matches Ok((v, r)) ==> fits16(v.1.rel_path) && s == put_slot()(v) + r,
{
    if let Ok((v, r)) = parse_slot(s) {
        lemma_u32_of(s);
        lemma_file_canonical(s.skip(4));
        lemma_concat_assoc(u32_le(v.0), file_bytes(v.1), r);
    }
}

proof fn lemma_delta_parses(d: DeltaView, r: Seq<u8>)
    requires
        delta_fits(d),
    ensures
        parse_delta(delta_bytes(d) + r) == Ok::<(DeltaView, Seq<u8>), WireError>((d, r)),
{
    let a = counted(d.dirs_upserted, put_dir());
    let b = counted(d.dirs_removed, put_text());
    let c = counted(d.files_upserted, put_slot());
    let e = counted(d.files_removed, put_index());
    assert forall|i: int, t: Seq<u8>|
        0 <= i < d.dirs_upserted.len() implies #[trigger] get_dir()(
        put_dir()(d.dirs_upserted[i]) + t,
    ) == Ok::<(DirView, Seq<u8>), WireError>((d.dirs_upserted[i], t)) by {
        assert(dir_fits()(d.dirs_upserted[i]));
        lemma_dir_parses(d.dirs_upserted[i], t);
    }
    assert forall|i: int, t: Seq<u8>|
        0 <= i < d.dirs_removed.len() implies #[trigger] get_text()(
        put_text()(d.dirs_removed[i]) + t,
    ) == Ok::<(Seq<char>, Seq<u8>), WireError>((d.dirs_removed[i], t)) by {
        assert(text_fits()(d.dirs_removed[i]));
        lemma_text16_parses(d.dirs_removed[i], t);
    }
    assert forall|i: int, t: Seq<u8>|
        0 <= i < d.files_upserted.len() implies #[trigger] get_slot()(
        put_slot()(d.files_upserted[i]) + t,
    ) == Ok::<((u32, FileView), Seq<u8>), WireError>((d.files_upserted[i], t)) by {
        assert(slot_fits()(d.files_upserted[i]));
        lemma_slot_parses(d.files_upserted[i], t);
    }
    assert forall|i: int, t: Seq<u8>|
        0 <= i < d.files_removed.len() implies #[trigger] get_index()(
        put_index()(d.files_removed[i]) + t,
    ) == Ok::<(u32, Seq<u8>), WireError>((d.files_removed[i], t)) by {
        lemma_u32_le(d.files_removed[i], t);
    }
    lemma_concat_assoc(c, e, r);
    lemma_concat_assoc(b, c + e, r);
    lemma_concat_assoc(a, b + (c + e), r);
    lemma_counted_parses(d.dirs_upserted, b + (c + (e + r)), put_dir(), get_dir());
    lemma_counted_parses(d.dirs_removed, c + (e + r), put_text(), get_text());
    lemma_counted_parses(d.files_upserted, e + r, put_slot(), get_slot());
    lemma_counted_parses(d.files_removed, r, put_index(), get_index());
}

proof fn lemma_delta_canonical(s: Seq<u8>)
    ensures
        parse_delta(s) matches Ok((d, r)) ==> delta_fits(d) && s == delta_bytes(d) + r,
{
    if let Ok((d, r)) = parse_delta(s) {
        assert forall|t: Seq<u8>|
            (#[trigger] get_dir()(t)) matches Ok((v, u)) ==> dir_fits()(v) && t == put_dir()(v)
                + u by {
            lemma_dir_canonical(t);
        }
        assert forall|t: Seq<u8>|
            (#[trigger] get_text()(t)) matches Ok((v, u)) ==> text_fits()(v) && t == put_text()(
                v,
            ) + u by {
            lemma_text16_canonical(t);
        }
        assert forall|t: Seq<u8>|
            (#[trigger] get_slot()(t)) matches Ok((v, u)) ==> slot_fits()(v) && t == put_slot()(
                v,
            ) + u by {
            lemma_slot_canonical(t);
        }
        assert forall|t: Seq<u8>|
            (#[trigger] get_index()(t)) matches Ok((v, u)) ==> any_index()(v) && t == put_index()(
                v,
            ) + u by {
            if t.len() >= 4 {
                lemma_u32_of(t);
            }
        }
        lemma_counted_canonical(s, put_dir(), get_dir(), dir_fits());
        let s1 = parse_counted(s, get_dir())->Ok_0.1;
        lemma_counted_canonical(s1, put_text(), get_text(), text_fits());
        let s2 = parse_counted(s1, get_text())->Ok_0.1;
        lemma_counted_canonical(s2, put_slot(), get_slot(), slot_fits());
        let s3 = parse_counted(s2, get_slot())->Ok_0.1;
        lemma_counted_canonical(s3, put_index(), get_index(), any_index());
        let a = counted(d.dirs_upserted, put_dir());
        let b = counted(d.dirs_removed, put_text());
        let c = counted(d.files_upserted, put_slot());
        let e = counted(d.files_removed, put_index());
        lemma_concat_assoc(c, e, r);
        lemma_concat_assoc(b, c + e, r);
        lemma_concat_assoc(a, b + (c + e), r);
    }
}

/// A delta reads back as what was encoded.
pub proof fn law_delta_round_trip(d: DeltaView)
    requires
        delta_fits(d),
    ensures
        delta_of(delta_bytes(d)) == Ok::<DeltaView, WireError>(d),
{
    lemma_delta_parses(d, Seq::empty());
    assert(delta_bytes(d) + Seq::<u8>::empty() =~= delta_bytes(d));
}

/// Bytes that decode are, byte for byte, the encoding of what they decode to.
pub proof fn law_delta_canonical(bytes: Seq<u8>)
    ensures
        delta_of(bytes) matches Ok(d) ==> delta_fits(d) && delta_bytes(d) == bytes,
{
    lemma_delta_canonical(bytes);
    if let Ok(d) = delta_of(bytes) {
        let r = parse_delta(bytes)->Ok_0.1;
        assert(delta_bytes(d) + r =~= delta_bytes(d));
    }
}

/// A delta cut short anywhere, or with anything appended, does not decode.
pub proof fn law_delta_cut_or_extended_is_refused(d: DeltaView, n: int, tail: Seq<u8>)
    requires
        delta_fits(d),
        0 <= n < delta_bytes(d).len(),
        tail.len() > 0,
    ensures
        delta_of(delta_bytes(d).take(n)) is Err,
        delta_of(delta_bytes(d) + tail) == Err::<DeltaView, WireError>(WireError::TrailingBytes),
{
    lemma_delta_parses(d, tail);
    let bytes = delta_bytes(d);
    let cut = bytes.take(n);
    let rest = bytes.skip(n);
    lemma_split(bytes, n);
    lemma_delta_parses(d, Seq::empty());
    if let Ok(other) = delta_of(cut) {
        law_delta_canonical(cut);
        lemma_delta_parses(other, rest);
    }
}

fn put_texts(out: &mut Vec<u8>, items: &Vec<String>)
    requires
        items@.len() <= u32::MAX,
        forall|i: int| 0 <= i < items@.len() ==> fits16((#[trigger] items@[i])@),
    ensures
        final(out)@ == old(out)@ + counted(text_views(items@), put_text()),
{
    let ghost all = text_views(items@);
    put_u32(out, items.len() as u32);
    let ghost prefix = out@;
    assert(all.take(0) =~= Seq::empty());
    assert(prefix + Seq::<u8>::empty() =~= prefix);
    let mut i: usize = 0;
    while i < items.len()
        invariant
            0 <= i <= items@.len(),
            all == text_views(items@),
            forall|j: int| 0 <= j < items@.len() ==> fits16((#[trigger] items@[j])@),
            out@ == prefix + bytes_of(all.take(i as int), put_text()),
        decreases items@.len() - i,
    {
        put_text16(out, items[i].as_str());
        proof {
            lemma_bytes_of_push(all.take(i as int), all[i as int], put_text());
            assert(all.take(i as int + 1) =~= all.take(i as int).push(all[i as int]));
            assert(out@ =~= prefix + bytes_of(all.take(i as int + 1), put_text()));
        }
        i += 1;
    }
    assert(all.take(i as int) =~= all);
    assert(out@ =~= old(out)@ + counted(all, put_text()));
}

fn put_slots(out: &mut Vec<u8>, items: &Vec<(u32, FileEntry)>)
    requires
        items@.len() <= u32::MAX,
        forall|i: int| 0 <= i < items@.len() ==> fits16((#[trigger] items@[i]).1.rel_path@),
    ensures
        final(out)@ == old(out)@ + counted(slot_views(items@), put_slot()),
{
    let ghost all = slot_views(items@);
    put_u32(out, items.len() as u32);
    let ghost prefix = out@;
    assert(all.take(0) =~= Seq::empty());
    assert(prefix + Seq::<u8>::empty() =~= prefix);
    let mut i: usize = 0;
    while i < items.len()
        invariant
            0 <= i <= items@.len(),
            all == slot_views(items@),
            forall|j: int| 0 <= j < items@.len() ==> fits16((#[trigger] items@[j]).1.rel_path@),
            out@ == prefix + bytes_of(all.take(i as int), put_slot()),
        decreases items@.len() - i,
    {
        let ghost before = out@;
        put_u32(out, items[i].0);
        put_file_entry(out, &items[i].1);
        proof {
            assert(out@ =~= before + put_slot()(all[i as int]));
            lemma_bytes_of_push(all.take(i as int), all[i as int], put_slot());
            assert(all.take(i as int + 1) =~= all.take(i as int).push(all[i as int]));
            assert(out@ =~= prefix + bytes_of(all.take(i as int + 1), put_slot()));
        }
        i += 1;
    }
    assert(all.take(i as int) =~= all);
    assert(out@ =~= old(out)@ + counted(all, put_slot()));
}

fn put_indices(out: &mut Vec<u8>, items: &Vec<u32>)
    requires
        items@.len() <= u32::MAX,
    ensures
        final(out)@ == old(out)@ + counted(items@, put_index()),
{
    let ghost all = items@;
    put_u32(out, items.len() as u32);
    let ghost prefix = out@;
    assert(all.take(0) =~= Seq::empty());
    assert(prefix + Seq::<u8>::empty() =~= prefix);
    let mut i: usize = 0;
    while i < items.len()
        invariant
            0 <= i <= items@.len(),
            all == items@,
            out@ == prefix + bytes_of(all.take(i as int), put_index()),
        decreases items@.len() - i,
    {
        put_u32(out, items[i]);
        proof {
            lemma_bytes_of_push(all.take(i as int), all[i as int], put_index());
            assert(all.take(i as int + 1) =~= all.take(i as int).push(all[i as int]));
            assert(out@ =~= prefix + bytes_of(all.take(i as int + 1), put_index()));
        }
        i += 1;
    }
    assert(all.take(i as int) =~= all);
    assert(out@ =~= old(out)@ + counted(all, put_index()));
}

fn take_texts(cursor: &mut Cursor) -> (out: Result<Vec<String>, WireError>)
    requires
        old(cursor).wf(),
    ensures
        final(cursor).wf(),
        match parse_counted(old(cursor).rest(), get_text()) {
            Err(e) => out == Err::<Vec<String>, WireError>(e),
            Ok((v, rest)) => out is Ok && text_views(out->Ok_0@) == v && final(cursor).rest()
                == rest,
        },
{
    let count: u32 = match cursor.take_u32() {
        Err(e) => return Err(e),
        Ok(v) => v,
    };
    let ghost list = cursor.rest();
    let mut items: Vec<String> = Vec::new();
    proof {
        lemma_prepend_nothing(parse_many(list, count as nat, get_text()));
        assert(text_views(items@) =~= Seq::empty());
    }
    let mut i: u32 = 0;
    while i < count
        invariant
            0 <= i <= count,
            cursor.wf(),
            parse_counted(old(cursor).rest(), get_text()) == parse_many(
                list,
                count as nat,
                get_text(),
            ),
            parse_many(list, count as nat, get_text()) == prepend(
                text_views(items@),
                parse_many(cursor.rest(), (count - i) as nat, get_text()),
            ),
        decreases count - i,
    {
        proof {
            lemma_parse_step(text_views(items@), cursor.rest(), (count - i) as nat, get_text());
        }
        let item = match cursor.take_path() {
            Err(e) => return Err(e),
            Ok(v) => v,
        };
        let ghost before = text_views(items@);
        items.push(item);
        assert(text_views(items@) =~= before.push(item@));
        i += 1;
    }
    assert(text_views(items@) + Seq::<Seq<char>>::empty() =~= text_views(items@));
    Ok(items)
}

fn take_slots(cursor: &mut Cursor) -> (out: Result<Vec<(u32, FileEntry)>, WireError>)
    requires
        old(cursor).wf(),
    ensures
        final(cursor).wf(),
        match parse_counted(old(cursor).rest(), get_slot()) {
            Err(e) => out == Err::<Vec<(u32, FileEntry)>, WireError>(e),
            Ok((v, rest)) => out is Ok && slot_views(out->Ok_0@) == v && final(cursor).rest()
                == rest,
        },
{
    let count: u32 = match cursor.take_u32() {
        Err(e) => return Err(e),
        Ok(v) => v,
    };
    let ghost list = cursor.rest();
    let mut items: Vec<(u32, FileEntry)> = Vec::new();
    proof {
        lemma_prepend_nothing(parse_many(list, count as nat, get_slot()));
        assert(slot_views(items@) =~= Seq::empty());
    }
    let mut i: u32 = 0;
    while i < count
        invariant
            0 <= i <= count,
            cursor.wf(),
            parse_counted(old(cursor).rest(), get_slot()) == parse_many(
                list,
                count as nat,
                get_slot(),
            ),
            parse_many(list, count as nat, get_slot()) == prepend(
                slot_views(items@),
                parse_many(cursor.rest(), (count - i) as nat, get_slot()),
            ),
        decreases count - i,
    {
        proof {
            lemma_parse_step(slot_views(items@), cursor.rest(), (count - i) as nat, get_slot());
        }
        let index: u32 = match cursor.take_u32() {
            Err(e) => return Err(e),
            Ok(v) => v,
        };
        let file = match take_file(cursor) {
            Err(e) => return Err(e),
            Ok(v) => v,
        };
        let ghost before = slot_views(items@);
        items.push((index, file));
        assert(slot_views(items@) =~= before.push((index, file@)));
        i += 1;
    }
    assert(slot_views(items@) + Seq::<(u32, FileView)>::empty() =~= slot_views(items@));
    Ok(items)
}

fn take_indices(cursor: &mut Cursor) -> (out: Result<Vec<u32>, WireError>)
    requires
        old(cursor).wf(),
    ensures
        final(cursor).wf(),
        match parse_counted(old(cursor).rest(), get_index()) {
            Err(e) => out == Err::<Vec<u32>, WireError>(e),
            Ok((v, rest)) => out is Ok && out->Ok_0@ == v && final(cursor).rest() == rest,
        },
{
    let count: u32 = match cursor.take_u32() {
        Err(e) => return Err(e),
        Ok(v) => v,
    };
    let ghost list = cursor.rest();
    let mut items: Vec<u32> = Vec::new();
    proof {
        lemma_prepend_nothing(parse_many(list, count as nat, get_index()));
    }
    let mut i: u32 = 0;
    while i < count
        invariant
            0 <= i <= count,
            cursor.wf(),
            parse_counted(old(cursor).rest(), get_index()) == parse_many(
                list,
                count as nat,
                get_index(),
            ),
            parse_many(list, count as nat, get_index()) == prepend(
                items@,
                parse_many(cursor.rest(), (count - i) as nat, get_index()),
            ),
        decreases count - i,
    {
        proof {
            lemma_parse_step(items@, cursor.rest(), (count - i) as nat, get_index());
        }
        let item: u32 = match cursor.take_u32() {
            Err(e) => return Err(e),
            Ok(v) => v,
        };
        items.push(item);
        i += 1;
    }
    assert(items@ + Seq::<u32>::empty() =~= items@);
    Ok(items)
}

impl ManifestDelta {
    /// Whether every upserted position can be addressed on this machine.
    #[must_use]
    pub fn is_addressable(&self) -> (ok: bool)
        ensures
            ok == slots_addressable(self@),
    {
        let mut i: usize = 0;
        while i < self.files_upserted.len()
            invariant
                0 <= i <= self.files_upserted@.len(),
                forall|k: int| 0 <= k < i ==> (#[trigger] self@.files_upserted[k]).0 < usize::MAX,
            decreases self.files_upserted@.len() - i,
        {
            assert(self@.files_upserted[i as int].0 == self.files_upserted@[i as int].0);
            if self.files_upserted[i].0 as usize == usize::MAX {
                return false;
            }
            i += 1;
        }
        true
    }

    /// Whether nothing changed.
    #[must_use]
    pub fn is_empty(&self) -> (empty: bool)
        ensures
            empty == (self@ == no_change()),
    {
        assert(self@.dirs_upserted.len() == 0 ==> self@.dirs_upserted =~= Seq::empty());
        assert(self@.dirs_removed.len() == 0 ==> self@.dirs_removed =~= Seq::empty());
        assert(self@.files_upserted.len() == 0 ==> self@.files_upserted =~= Seq::empty());
        assert(self@.files_removed.len() == 0 ==> self@.files_removed =~= Seq::empty());
        self.dirs_upserted.is_empty() && self.dirs_removed.is_empty()
            && self.files_upserted.is_empty() && self.files_removed.is_empty()
    }

    /// Encodes this delta. Its counts and paths have to fit their fields.
    #[must_use]
    pub fn encode(&self) -> (out: Vec<u8>)
        requires
            delta_fits(self@),
        ensures
            out@ == delta_bytes(self@),
    {
        let mut out: Vec<u8> = Vec::new();
        proof {
            assert forall|i: int| 0 <= i < self.dirs_upserted@.len() implies fits16(
                (#[trigger] self.dirs_upserted@[i]).rel_path@,
            ) by {
                assert(dir_fits()(self@.dirs_upserted[i]));
            }
            assert forall|i: int| 0 <= i < self.dirs_removed@.len() implies fits16(
                (#[trigger] self.dirs_removed@[i])@,
            ) by {
                assert(text_fits()(self@.dirs_removed[i]));
            }
            assert forall|i: int| 0 <= i < self.files_upserted@.len() implies fits16(
                (#[trigger] self.files_upserted@[i]).1.rel_path@,
            ) by {
                assert(slot_fits()(self@.files_upserted[i]));
            }
        }
        put_dirs(&mut out, &self.dirs_upserted);
        put_texts(&mut out, &self.dirs_removed);
        put_slots(&mut out, &self.files_upserted);
        put_indices(&mut out, &self.files_removed);
        assert(out@ =~= delta_bytes(self@));
        out
    }

    /// # Errors
    /// The bytes are cut short, a path is not UTF-8, or bytes are left over.
    pub fn decode(bytes: &[u8]) -> (out: Result<Self, WireError>)
        ensures
            match delta_of(bytes@) {
                Err(e) => out == Err::<Self, WireError>(e),
                Ok(d) => out is Ok && out->Ok_0@ == d,
            },
    {
        let mut cursor = Cursor::new(bytes);
        let dirs_upserted = match take_dirs(&mut cursor) {
            Err(e) => return Err(e),
            Ok(v) => v,
        };
        let dirs_removed = match take_texts(&mut cursor) {
            Err(e) => return Err(e),
            Ok(v) => v,
        };
        let files_upserted = match take_slots(&mut cursor) {
            Err(e) => return Err(e),
            Ok(v) => v,
        };
        let files_removed = match take_indices(&mut cursor) {
            Err(e) => return Err(e),
            Ok(v) => v,
        };
        if cursor.remaining() > 0 {
            return Err(WireError::TrailingBytes);
        }
        Ok(ManifestDelta { dirs_upserted, dirs_removed, files_upserted, files_removed })
    }
}

/// The directories whose path is not among `removed`, in order.
pub open spec fn dirs_kept(dirs: Seq<DirView>, removed: Seq<Seq<char>>) -> Seq<DirView>
    decreases dirs.len(),
{
    if dirs.len() == 0 {
        Seq::empty()
    } else {
        let front = dirs_kept(dirs.drop_last(), removed);
        if removed.contains(dirs.last().rel_path) {
            front
        } else {
            front.push(dirs.last())
        }
    }
}

/// The last position that holds `path`.
pub open spec fn last_at(dirs: Seq<DirView>, path: Seq<char>) -> Option<int>
    decreases dirs.len(),
{
    if dirs.len() == 0 {
        None
    } else if dirs.last().rel_path == path {
        Some(dirs.len() - 1)
    } else {
        last_at(dirs.drop_last(), path)
    }
}

/// `base` with each upsert whose path it holds written over that path's last
/// position, one after the other.
pub open spec fn dirs_updated(base: Seq<DirView>, upserts: Seq<DirView>) -> Seq<DirView>
    decreases upserts.len(),
{
    if upserts.len() == 0 {
        base
    } else {
        let before = dirs_updated(base, upserts.drop_last());
        match last_at(base, upserts.last().rel_path) {
            Some(at) => before.update(at, upserts.last()),
            None => before,
        }
    }
}

/// The upserts whose path `base` does not hold, in order.
pub open spec fn dirs_added(base: Seq<DirView>, upserts: Seq<DirView>) -> Seq<DirView>
    decreases upserts.len(),
{
    if upserts.len() == 0 {
        Seq::empty()
    } else {
        let before = dirs_added(base, upserts.drop_last());
        match last_at(base, upserts.last().rel_path) {
            Some(_) => before,
            None => before.push(upserts.last()),
        }
    }
}

/// `files`, extended with tombstones up to `n` positions.
pub open spec fn padded(files: Seq<FileView>, n: nat) -> Seq<FileView> {
    Seq::new(
        if files.len() < n {
            n
        } else {
            files.len()
        },
        |i: int|
            if i < files.len() {
                files[i]
            } else {
                tomb()
            },
    )
}

/// Each upserted file put at its position, one after the other.
pub open spec fn files_put(files: Seq<FileView>, upserts: Seq<(u32, FileView)>) -> Seq<FileView>
    decreases upserts.len(),
{
    if upserts.len() == 0 {
        files
    } else {
        let before = files_put(files, upserts.drop_last());
        let (index, file) = upserts.last();
        padded(before, (index + 1) as nat).update(index as int, file)
    }
}

/// A tombstone at each removed position the listing has.
pub open spec fn files_dropped(files: Seq<FileView>, removed: Seq<u32>) -> Seq<FileView> {
    Seq::new(
        files.len(),
        |i: int|
            if removed.contains(i as u32) && i <= u32::MAX {
                tomb()
            } else {
                files[i]
            },
    )
}

/// The listing a delta leads to: removed directories go, upserted ones are
/// written over or appended, upserted files take their positions, and removed
/// files leave tombstones.
pub open spec fn applied(m: ManifestView, d: DeltaView) -> ManifestView {
    let kept = dirs_kept(m.dirs, d.dirs_removed);
    ManifestView {
        dirs: dirs_updated(kept, d.dirs_upserted) + dirs_added(kept, d.dirs_upserted),
        files: files_dropped(files_put(m.files, d.files_upserted), d.files_removed),
    }
}

/// Whether every upserted position can be addressed on this machine.
pub open spec fn slots_addressable(d: DeltaView) -> bool {
    forall|i: int|
        0 <= i < d.files_upserted.len() ==> (#[trigger] d.files_upserted[i]).0 < usize::MAX
}

pub proof fn lemma_last_at(dirs: Seq<DirView>, path: Seq<char>)
    ensures
        last_at(dirs, path) matches Some(at) ==> 0 <= at < dirs.len() && dirs[at].rel_path == path
            && (forall|j: int| at < j < dirs.len() ==> (#[trigger] dirs[j]).rel_path != path),
        last_at(dirs, path) is None ==> forall|j: int|
            0 <= j < dirs.len() ==> (#[trigger] dirs[j]).rel_path != path,
    decreases dirs.len(),
{
    if dirs.len() > 0 {
        lemma_last_at(dirs.drop_last(), path);
        let front = dirs.drop_last();
        assert forall|j: int| 0 <= j < dirs.len() - 1 implies dirs[j] == front[j] by {}
        if dirs.last().rel_path != path {
            assert(forall|j: int| 0 <= j < dirs.len() - 1 ==> dirs[j] == front[j]);
        }
    }
}

proof fn lemma_dirs_updated_len(base: Seq<DirView>, upserts: Seq<DirView>)
    ensures
        dirs_updated(base, upserts).len() == base.len(),
    decreases upserts.len(),
{
    if upserts.len() > 0 {
        lemma_dirs_updated_len(base, upserts.drop_last());
        lemma_last_at(base, upserts.last().rel_path);
    }
}

fn removed_set(removed: &Vec<String>) -> (set: StringHashSet)
    ensures
        forall|p: Seq<char>| #[trigger] set@.contains(p) == text_views(removed@).contains(p),
{
    let mut set = StringHashSet::new();
    let ghost all = text_views(removed@);
    let mut i: usize = 0;
    while i < removed.len()
        invariant
            0 <= i <= removed@.len(),
            all == text_views(removed@),
            forall|p: Seq<char>| #[trigger] set@.contains(p) == all.take(i as int).contains(p),
        decreases removed@.len() - i,
    {
        let ghost before = set@;
        set.insert(removed[i].clone());
        proof {
            let short = all.take(i as int);
            let long = all.take(i as int + 1);
            assert(long =~= short.push(all[i as int]));
            assert forall|p: Seq<char>| #[trigger] set@.contains(p) == long.contains(p) by {
                if short.contains(p) {
                    let k = choose|k: int| 0 <= k < short.len() && short[k] == p;
                    assert(long[k] == p);
                }
                if p == all[i as int] {
                    assert(long[i as int] == p);
                }
                if long.contains(p) && p != all[i as int] {
                    let k = choose|k: int| 0 <= k < long.len() && long[k] == p;
                    assert(short[k] == p);
                }
                assert(set@.contains(p) == (before.contains(p) || p == all[i as int]));
            }
        }
        i += 1;
    }
    assert(all.take(i as int) =~= all);
    set
}

fn positions(dirs: &Vec<DirEntry>) -> (at: StringHashMap<usize>)
    ensures
        forall|p: Seq<char>|
            {
                &&& #[trigger] at@.contains_key(p) == last_at(dir_views(dirs@), p) is Some
                &&& at@.contains_key(p) ==> last_at(dir_views(dirs@), p) == Some(at@[p] as int)
            },
{
    let mut at: StringHashMap<usize> = StringHashMap::new();
    let ghost all = dir_views(dirs@);
    let mut i: usize = 0;
    while i < dirs.len()
        invariant
            0 <= i <= dirs@.len(),
            all == dir_views(dirs@),
            forall|p: Seq<char>|
                {
                    &&& #[trigger] at@.contains_key(p) == last_at(all.take(i as int), p) is Some
                    &&& at@.contains_key(p) ==> last_at(all.take(i as int), p) == Some(
                        at@[p] as int,
                    )
                },
        decreases dirs@.len() - i,
    {
        at.insert(dirs[i].rel_path.clone(), i);
        proof {
            assert(all.take(i as int + 1).drop_last() =~= all.take(i as int));
        }
        i += 1;
    }
    assert(all.take(i as int) =~= all);
    at
}

impl MountManifest {
    /// Applies a delta.
    pub fn apply(&mut self, delta: &ManifestDelta)
        requires
            slots_addressable(delta@),
        ensures
            final(self)@ == applied(old(self)@, delta@),
    {
        let ghost start = self@;
        self.remove_dirs(&delta.dirs_removed);
        self.upsert_dirs(&delta.dirs_upserted);
        proof {
            assert forall|i: int| 0 <= i < delta.files_upserted@.len() implies (
            #[trigger] delta.files_upserted@[i]).0 < usize::MAX by {
                assert(delta@.files_upserted[i].0 < usize::MAX);
            }
        }
        self.put_files_at(&delta.files_upserted);
        self.drop_files_at(&delta.files_removed);
        assert(self@ == applied(start, delta@));
    }

    fn remove_dirs(&mut self, removed: &Vec<String>)
        ensures
            final(self)@.dirs == dirs_kept(old(self)@.dirs, text_views(removed@)),
            final(self)@.files == old(self)@.files,
    {
        let ghost all = self@.dirs;
        let ghost gone = text_views(removed@);
        let set = removed_set(removed);
        let mut kept: Vec<DirEntry> = Vec::new();
        assert(dir_views(kept@) =~= Seq::empty());
        let mut i: usize = 0;
        while i < self.dirs.len()
            invariant
                0 <= i <= self.dirs@.len(),
                all == dir_views(self.dirs@),
                forall|p: Seq<char>| #[trigger] set@.contains(p) == gone.contains(p),
                dir_views(kept@) == dirs_kept(all.take(i as int), gone),
            decreases self.dirs@.len() - i,
        {
            let ghost before = dir_views(kept@);
            assert(all.take(i as int + 1).drop_last() =~= all.take(i as int));
            assert(all.take(i as int + 1).last() == all[i as int]);
            if !set.contains(self.dirs[i].rel_path.as_str()) {
                kept.push(self.dirs[i].copy());
                assert(dir_views(kept@) =~= before.push(all[i as int]));
            }
            i += 1;
        }
        assert(all.take(i as int) =~= all);
        self.dirs = kept;
    }

    fn upsert_dirs(&mut self, upserts: &Vec<DirEntry>)
        ensures
            final(self)@.dirs == dirs_updated(old(self)@.dirs, dir_views(upserts@)) + dirs_added(
                old(self)@.dirs,
                dir_views(upserts@),
            ),
            final(self)@.files == old(self)@.files,
    {
        let ghost base = self@.dirs;
        let ghost ups = dir_views(upserts@);
        let at = positions(&self.dirs);
        let mut added: Vec<DirEntry> = Vec::new();
        assert(dir_views(added@) =~= Seq::empty());
        assert(ups.take(0) =~= Seq::empty());
        let mut i: usize = 0;
        while i < upserts.len()
            invariant
                0 <= i <= upserts@.len(),
                ups == dir_views(upserts@),
                self@.files == old(self)@.files,
                forall|p: Seq<char>|
                    {
                        &&& #[trigger] at@.contains_key(p) == last_at(base, p) is Some
                        &&& at@.contains_key(p) ==> last_at(base, p) == Some(at@[p] as int)
                    },
                self@.dirs == dirs_updated(base, ups.take(i as int)),
                dir_views(added@) == dirs_added(base, ups.take(i as int)),
            decreases upserts@.len() - i,
        {
            proof {
                assert(ups.take(i as int + 1).drop_last() =~= ups.take(i as int));
                assert(ups.take(i as int + 1).last() == ups[i as int]);
                lemma_last_at(base, ups[i as int].rel_path);
                lemma_dirs_updated_len(base, ups.take(i as int));
            }
            let ghost dirs_before = self@.dirs;
            let ghost added_before = dir_views(added@);
            match at.get(upserts[i].rel_path.as_str()) {
                Some(position) => {
                    let position: usize = *position;
                    self.dirs[position] = upserts[i].copy();
                    assert(self@.dirs =~= dirs_before.update(position as int, ups[i as int]));
                },
                None => {
                    added.push(upserts[i].copy());
                    assert(dir_views(added@) =~= added_before.push(ups[i as int]));
                },
            }
            i += 1;
        }
        assert(ups.take(i as int) =~= ups);
        let ghost first = self@.dirs;
        let ghost second = dir_views(added@);
        self.dirs.append(&mut added);
        assert(self@.dirs =~= first + second);
    }

    fn put_files_at(&mut self, upserts: &Vec<(u32, FileEntry)>)
        requires
            forall|i: int| 0 <= i < upserts@.len() ==> (#[trigger] upserts@[i]).0 < usize::MAX,
        ensures
            final(self)@.files == files_put(old(self)@.files, slot_views(upserts@)),
            final(self)@.dirs == old(self)@.dirs,
    {
        let ghost base = self@.files;
        let ghost ups = slot_views(upserts@);
        assert(ups.take(0) =~= Seq::empty());
        let mut i: usize = 0;
        while i < upserts.len()
            invariant
                0 <= i <= upserts@.len(),
                ups == slot_views(upserts@),
                self@.dirs == old(self)@.dirs,
                forall|j: int| 0 <= j < upserts@.len() ==> (#[trigger] upserts@[j]).0 < usize::MAX,
                self@.files == files_put(base, ups.take(i as int)),
            decreases upserts@.len() - i,
        {
            proof {
                assert(ups.take(i as int + 1).drop_last() =~= ups.take(i as int));
                assert(ups.take(i as int + 1).last() == ups[i as int]);
            }
            let ghost before = self@.files;
            assert(upserts@[i as int].0 < usize::MAX);
            let slot: usize = upserts[i].0 as usize;
            while self.files.len() <= slot
                invariant
                    slot < usize::MAX,
                    self@.dirs == old(self)@.dirs,
                    self@.files.len() >= before.len(),
                    self@.files.len() <= slot + 1 || self@.files.len() == before.len(),
                    self@.files =~= padded(before, self@.files.len()),
                decreases slot + 1 - self.files@.len(),
            {
                let ghost now = self@.files;
                self.files.push(FileEntry::tombstone());
                assert(self@.files =~= now.push(tomb()));
            }
            assert(self@.files =~= padded(before, (slot + 1) as nat));
            let ghost wide = self@.files;
            self.files[slot] = upserts[i].1.copy();
            assert(self@.files =~= wide.update(slot as int, ups[i as int].1));
            i += 1;
        }
        assert(ups.take(i as int) =~= ups);
    }

    fn drop_files_at(&mut self, removed: &Vec<u32>)
        ensures
            final(self)@.files == files_dropped(old(self)@.files, removed@),
            final(self)@.dirs == old(self)@.dirs,
    {
        let ghost base = self@.files;
        let mut i: usize = 0;
        while i < removed.len()
            invariant
                0 <= i <= removed@.len(),
                self@.dirs == old(self)@.dirs,
                self@.files =~= files_dropped(base, removed@.take(i as int)),
            decreases removed@.len() - i,
        {
            let ghost before = self@.files;
            let slot: usize = removed[i] as usize;
            if slot < self.files.len() {
                self.files[slot] = FileEntry::tombstone();
                assert(self@.files =~= before.update(slot as int, tomb()));
            }
            proof {
                let short = removed@.take(i as int);
                let long = removed@.take(i as int + 1);
                assert(long =~= short.push(removed@[i as int]));
                assert forall|x: u32|
                    long.contains(x) == (short.contains(x) || x == removed@[i as int]) by {
                    if short.contains(x) {
                        let k = choose|k: int| 0 <= k < short.len() && short[k] == x;
                        assert(long[k] == x);
                    }
                    if x == removed@[i as int] {
                        assert(long[i as int] == x);
                    }
                    if long.contains(x) && x != removed@[i as int] {
                        let k = choose|k: int| 0 <= k < long.len() && long[k] == x;
                        assert(short[k] == x);
                    }
                }
                assert(self@.files =~= files_dropped(base, long));
            }
            i += 1;
        }
        assert(removed@.take(i as int) =~= removed@);
    }
}

proof fn lemma_files_put(files: Seq<FileView>, upserts: Seq<(u32, FileView)>)
    ensures
        files_put(files, upserts).len() >= files.len(),
        forall|i: int|
            0 <= i < files.len() && (forall|k: int|
                0 <= k < upserts.len() ==> (#[trigger] upserts[k]).0 != i)
                ==> #[trigger] files_put(files, upserts)[i] == files[i],
        forall|i: int|
            files.len() <= i < files_put(files, upserts).len() && (forall|k: int|
                0 <= k < upserts.len() ==> (#[trigger] upserts[k]).0 != i)
                ==> #[trigger] files_put(files, upserts)[i] == tomb(),
        forall|k: int|
            0 <= k < upserts.len() ==> (#[trigger] upserts[k]).0 < files_put(files, upserts).len(),
    decreases upserts.len(),
{
    if upserts.len() > 0 {
        let front = upserts.drop_last();
        lemma_files_put(files, front);
        let before = files_put(files, front);
        let (index, file) = upserts.last();
        let wide = padded(before, (index + 1) as nat);
        let after = files_put(files, upserts);
        assert(after == wide.update(index as int, file));
        assert forall|k: int| 0 <= k < front.len() implies front[k] == upserts[k] by {}
        assert forall|i: int|
            0 <= i < files.len() && (forall|k: int|
                0 <= k < upserts.len() ==> (#[trigger] upserts[k]).0
                    != i) implies #[trigger] after[i] == files[i] by {
            assert(upserts[upserts.len() - 1].0 != i);
            assert forall|k: int| 0 <= k < front.len() implies (#[trigger] front[k]).0 != i by {
                assert(upserts[k].0 != i);
            }
            assert(before[i] == files[i]);
        }
        assert forall|i: int|
            files.len() <= i < after.len() && (forall|k: int|
                0 <= k < upserts.len() ==> (#[trigger] upserts[k]).0
                    != i) implies #[trigger] after[i] == tomb() by {
            assert(upserts[upserts.len() - 1].0 != i);
            assert forall|k: int| 0 <= k < front.len() implies (#[trigger] front[k]).0 != i by {
                assert(upserts[k].0 != i);
            }
            if i < before.len() {
                assert(before[i] == tomb());
            }
        }
        assert forall|k: int| 0 <= k < upserts.len() implies (#[trigger] upserts[k]).0
            < after.len() by {
            if k < front.len() {
                assert(front[k].0 < before.len());
            }
        }
    }
}

/// Positions stay put: whatever a delta does, a file it does not name keeps its
/// position and its entry, and the listing never gets shorter.
pub proof fn law_apply_keeps_positions(m: ManifestView, d: DeltaView, i: int)
    requires
        0 <= i < m.files.len(),
        forall|k: int| 0 <= k < d.files_upserted.len() ==> (#[trigger] d.files_upserted[k]).0 != i,
        forall|k: int| 0 <= k < d.files_removed.len() ==> (#[trigger] d.files_removed[k]) != i,
    ensures
        applied(m, d).files.len() >= m.files.len(),
        applied(m, d).files[i] == m.files[i],
{
    lemma_files_put(m.files, d.files_upserted);
    assert(files_put(m.files, d.files_upserted)[i] == m.files[i]);
    if d.files_removed.contains(i as u32) && i <= u32::MAX {
        let k = choose|k: int| 0 <= k < d.files_removed.len() && d.files_removed[k] == i as u32;
        assert(d.files_removed[k] != i);
    }
}

/// An upsert past the end pads the gap with tombstones: every position the
/// listing gained and the delta does not name is a tombstone.
pub proof fn law_apply_pads_with_tombstones(m: ManifestView, d: DeltaView, i: int)
    requires
        m.files.len() <= i < applied(m, d).files.len(),
        forall|k: int| 0 <= k < d.files_upserted.len() ==> (#[trigger] d.files_upserted[k]).0 != i,
    ensures
        applied(m, d).files[i] == tomb(),
{
    lemma_files_put(m.files, d.files_upserted);
    assert(files_put(m.files, d.files_upserted)[i] == tomb());
}

/// A removed position the listing has becomes a tombstone, even where the same
/// delta upserts it.
pub proof fn law_apply_removes(m: ManifestView, d: DeltaView, k: int)
    requires
        0 <= k < d.files_removed.len(),
        d.files_removed[k] < applied(m, d).files.len(),
    ensures
        applied(m, d).files[d.files_removed[k] as int] == tomb(),
{
    assert(d.files_removed.contains(d.files_removed[k]));
}

/// The last upsert of a position that is not removed is what stands there.
pub proof fn law_apply_upserts(m: ManifestView, d: DeltaView, k: int)
    requires
        0 <= k < d.files_upserted.len(),
        forall|j: int|
            k < j < d.files_upserted.len() ==> (#[trigger] d.files_upserted[j]).0
                != d.files_upserted[k].0,
        !d.files_removed.contains(d.files_upserted[k].0),
    ensures
        d.files_upserted[k].0 < applied(m, d).files.len(),
        applied(m, d).files[d.files_upserted[k].0 as int] == d.files_upserted[k].1,
{
    lemma_files_put(m.files, d.files_upserted);
    lemma_files_put_last(m.files, d.files_upserted, k);
}

proof fn lemma_files_put_last(files: Seq<FileView>, upserts: Seq<(u32, FileView)>, k: int)
    requires
        0 <= k < upserts.len(),
        forall|j: int| k < j < upserts.len() ==> (#[trigger] upserts[j]).0 != upserts[k].0,
    ensures
        upserts[k].0 < files_put(files, upserts).len(),
        files_put(files, upserts)[upserts[k].0 as int] == upserts[k].1,
    decreases upserts.len(),
{
    let front = upserts.drop_last();
    if k < front.len() {
        assert forall|j: int| k < j < front.len() implies (#[trigger] front[j]).0
            != front[k].0 by {
            assert(front[j] == upserts[j]);
        }
        lemma_files_put_last(files, front, k);
        assert(upserts[upserts.len() - 1].0 != upserts[k].0);
    }
}

/// A delta that changes nothing leaves the listing as it is.
pub proof fn law_no_change_is_identity(m: ManifestView)
    ensures
        applied(m, no_change()) == m,
{
    lemma_dirs_kept_all(m.dirs);
    assert(m.dirs + Seq::<DirView>::empty() =~= m.dirs);
    assert(files_dropped(m.files, Seq::empty()) =~= m.files);
}

proof fn lemma_dirs_kept_all(dirs: Seq<DirView>)
    ensures
        dirs_kept(dirs, Seq::empty()) == dirs,
    decreases dirs.len(),
{
    if dirs.len() > 0 {
        lemma_dirs_kept_all(dirs.drop_last());
        assert(dirs =~= dirs.drop_last().push(dirs.last()));
    } else {
        assert(dirs =~= Seq::empty());
    }
}

proof fn lemma_dirs_kept_paths(dirs: Seq<DirView>, removed: Seq<Seq<char>>)
    ensures
        forall|i: int|
            0 <= i < dirs_kept(dirs, removed).len() ==> !removed.contains(
                (#[trigger] dirs_kept(dirs, removed)[i]).rel_path,
            ),
    decreases dirs.len(),
{
    if dirs.len() > 0 {
        lemma_dirs_kept_paths(dirs.drop_last(), removed);
        let front = dirs_kept(dirs.drop_last(), removed);
        let all = dirs_kept(dirs, removed);
        assert forall|i: int| 0 <= i < all.len() implies !removed.contains(
            (#[trigger] all[i]).rel_path,
        ) by {
            if i < front.len() {
                assert(all[i] == front[i]);
            }
        }
    }
}

proof fn lemma_dirs_kept_none_removed(dirs: Seq<DirView>, removed: Seq<Seq<char>>)
    requires
        forall|i: int| 0 <= i < dirs.len() ==> !removed.contains((#[trigger] dirs[i]).rel_path),
    ensures
        dirs_kept(dirs, removed) == dirs,
    decreases dirs.len(),
{
    if dirs.len() > 0 {
        let front = dirs.drop_last();
        assert forall|i: int| 0 <= i < front.len() implies !removed.contains(
            (#[trigger] front[i]).rel_path,
        ) by {
            assert(front[i] == dirs[i]);
        }
        lemma_dirs_kept_none_removed(front, removed);
        assert(!removed.contains(dirs[dirs.len() - 1].rel_path));
        assert(dirs =~= front.push(dirs.last()));
    } else {
        assert(dirs =~= Seq::empty());
    }
}

/// What stands at a position of an updated listing: the last upsert of its path
/// where the position is the path's last, and what stood there elsewhere.
proof fn lemma_dirs_updated_at(base: Seq<DirView>, upserts: Seq<DirView>, p: int)
    requires
        0 <= p < base.len(),
    ensures
        dirs_updated(base, upserts).len() == base.len(),
        dirs_updated(base, upserts)[p] == (if last_at(base, base[p].rel_path) == Some(p) {
            match last_at(upserts, base[p].rel_path) {
                Some(k) => upserts[k],
                None => base[p],
            }
        } else {
            base[p]
        }),
    decreases upserts.len(),
{
    lemma_dirs_updated_len(base, upserts);
    if upserts.len() > 0 {
        let front = upserts.drop_last();
        let path = upserts.last().rel_path;
        lemma_dirs_updated_at(base, front, p);
        lemma_last_at(base, path);
        lemma_last_at(front, base[p].rel_path);
        match last_at(base, path) {
            Some(at) => {
                if p == at {
                    assert(last_at(upserts, base[p].rel_path) == Some(upserts.len() - 1));
                }
            },
            None => {},
        }
    }
}

/// What is added is upserted under a path that was not there, and of one path
/// the last one is the last upsert.
proof fn lemma_dirs_added(base: Seq<DirView>, upserts: Seq<DirView>, path: Seq<char>)
    ensures
        forall|q: int|
            0 <= q < dirs_added(base, upserts).len() ==> last_at(
                base,
                (#[trigger] dirs_added(base, upserts)[q]).rel_path,
            ) is None && upserts.contains(dirs_added(base, upserts)[q]),
        last_at(base, path) is None ==> match last_at(upserts, path) {
            Some(k) => last_at(dirs_added(base, upserts), path) matches Some(q) && dirs_added(
                base,
                upserts,
            )[q] == upserts[k],
            None => last_at(dirs_added(base, upserts), path) is None,
        },
    decreases upserts.len(),
{
    if upserts.len() > 0 {
        let front = upserts.drop_last();
        let u = upserts.last();
        lemma_dirs_added(base, front, path);
        let before = dirs_added(base, front);
        let after = dirs_added(base, upserts);
        lemma_last_at(front, path);
        lemma_last_at(before, path);
        if last_at(base, u.rel_path) is None {
            assert(after.drop_last() =~= before);
            assert(after.last() == u);
        }
        assert forall|q: int| 0 <= q < after.len() implies last_at(
            base,
            (#[trigger] after[q]).rel_path,
        ) is None && upserts.contains(after[q]) by {
            if q < before.len() {
                assert(after[q] == before[q]);
                let k = choose|k: int| 0 <= k < front.len() && front[k] == before[q];
                assert(upserts[k] == after[q]);
            } else {
                assert(upserts[upserts.len() - 1] == after[q]);
            }
        }
    }
}

proof fn lemma_dirs_twice(kept: Seq<DirView>, upserts: Seq<DirView>)
    ensures
        ({
            let all = dirs_updated(kept, upserts) + dirs_added(kept, upserts);
            dirs_updated(all, upserts) + dirs_added(all, upserts) == all
        }),
{
    let top = dirs_updated(kept, upserts);
    let more = dirs_added(kept, upserts);
    let all = top + more;
    lemma_dirs_updated_len(kept, upserts);
    lemma_dirs_updated_len(all, upserts);
    assert forall|p: int| 0 <= p < kept.len() implies (#[trigger] all[p]).rel_path
        == kept[p].rel_path by {
        lemma_dirs_updated_at(kept, upserts, p);
        lemma_last_at(upserts, kept[p].rel_path);
    }
    assert forall|k: int| 0 <= k < upserts.len() implies last_at(
        all,
        (#[trigger] upserts[k]).rel_path,
    ) is Some by {
        let path = upserts[k].rel_path;
        lemma_last_at(all, path);
        lemma_last_at(kept, path);
        lemma_last_at(upserts, path);
        match last_at(kept, path) {
            Some(at) => {
                assert(all[at].rel_path == path);
            },
            None => {
                lemma_dirs_added(kept, upserts, path);
                lemma_last_at(more, path);
                let q = last_at(more, path)->Some_0;
                assert(all[kept.len() + q].rel_path == path);
            },
        }
    }
    lemma_nothing_added(all, upserts);
    assert forall|p: int| 0 <= p < all.len() implies #[trigger] dirs_updated(all, upserts)[p]
        == all[p] by {
        let path = all[p].rel_path;
        lemma_dirs_updated_at(all, upserts, p);
        lemma_last_at(all, path);
        lemma_last_at(kept, path);
        if last_at(all, path) == Some(p) && last_at(upserts, path) is Some {
            if p < kept.len() {
                lemma_dirs_updated_at(kept, upserts, p);
                match last_at(kept, path) {
                    Some(at) => {
                        if at > p {
                            assert(all[at].rel_path == path);
                        } else if at < p {
                            assert(kept[p].rel_path == path);
                        }
                    },
                    None => {
                        assert(kept[p].rel_path == path);
                    },
                }
            } else {
                lemma_dirs_added(kept, upserts, path);
                lemma_last_at(more, path);
                assert(all[p] == more[p - kept.len()]);
                let q = last_at(more, path)->Some_0;
                assert(all[kept.len() + q] == more[q]);
                if q > p - kept.len() {
                    assert(all[kept.len() + q].rel_path == path);
                } else if q < p - kept.len() {
                    assert(more[p - kept.len()].rel_path == path);
                }
            }
        }
    }
    assert(dirs_updated(all, upserts) + dirs_added(all, upserts) =~= all);
}

proof fn lemma_nothing_added(base: Seq<DirView>, upserts: Seq<DirView>)
    requires
        forall|k: int|
            0 <= k < upserts.len() ==> last_at(base, (#[trigger] upserts[k]).rel_path) is Some,
    ensures
        dirs_added(base, upserts) == Seq::<DirView>::empty(),
    decreases upserts.len(),
{
    if upserts.len() > 0 {
        let front = upserts.drop_last();
        assert forall|k: int| 0 <= k < front.len() implies last_at(
            base,
            (#[trigger] front[k]).rel_path,
        ) is Some by {
            assert(front[k] == upserts[k]);
        }
        lemma_nothing_added(base, front);
        assert(last_at(base, upserts[upserts.len() - 1].rel_path) is Some);
    }
}

proof fn lemma_files_put_agree(
    a: Seq<FileView>,
    b: Seq<FileView>,
    upserts: Seq<(u32, FileView)>,
    k: int,
)
    requires
        0 <= k < upserts.len(),
    ensures
        files_put(a, upserts)[upserts[k].0 as int] == files_put(b, upserts)[upserts[k].0 as int],
    decreases upserts.len(),
{
    let front = upserts.drop_last();
    lemma_files_put(a, front);
    lemma_files_put(b, front);
    if upserts.last().0 != upserts[k].0 {
        assert(front[k] == upserts[k]);
        lemma_files_put_agree(a, b, front, k);
    }
}

proof fn lemma_files_put_inside(files: Seq<FileView>, upserts: Seq<(u32, FileView)>)
    requires
        forall|k: int| 0 <= k < upserts.len() ==> (#[trigger] upserts[k]).0 < files.len(),
    ensures
        files_put(files, upserts).len() == files.len(),
    decreases upserts.len(),
{
    if upserts.len() > 0 {
        let front = upserts.drop_last();
        assert forall|k: int| 0 <= k < front.len() implies (#[trigger] front[k]).0
            < files.len() by {
            assert(front[k] == upserts[k]);
        }
        lemma_files_put_inside(files, front);
        assert(upserts[upserts.len() - 1].0 < files.len());
    }
}

proof fn lemma_files_twice(
    files: Seq<FileView>,
    upserts: Seq<(u32, FileView)>,
    removed: Seq<u32>,
)
    ensures
        ({
            let once = files_dropped(files_put(files, upserts), removed);
            files_dropped(files_put(once, upserts), removed) == once
        }),
{
    let put = files_put(files, upserts);
    let once = files_dropped(put, removed);
    let again = files_put(once, upserts);
    lemma_files_put(files, upserts);
    assert forall|k: int| 0 <= k < upserts.len() implies (#[trigger] upserts[k]).0
        < once.len() by {}
    lemma_files_put_inside(once, upserts);
    lemma_files_put(once, upserts);
    assert forall|i: int| 0 <= i < once.len() implies #[trigger] files_dropped(again, removed)[i]
        == once[i] by {
        if exists|k: int| 0 <= k < upserts.len() && (#[trigger] upserts[k]).0 == i {
            let k = choose|k: int| 0 <= k < upserts.len() && (#[trigger] upserts[k]).0 == i;
            lemma_files_put_agree(files, once, upserts, k);
        } else {
            assert(again[i] == once[i]);
        }
    }
    assert(files_dropped(again, removed) =~= once);
}

/// A delta that is applied again changes nothing more, as long as it does not
/// both remove and upsert a directory.
pub proof fn law_applying_twice_is_applying_once(m: ManifestView, d: DeltaView)
    requires
        forall|k: int|
            0 <= k < d.dirs_upserted.len() ==> !d.dirs_removed.contains(
                (#[trigger] d.dirs_upserted[k]).rel_path,
            ),
    ensures
        applied(applied(m, d), d) == applied(m, d),
{
    let kept = dirs_kept(m.dirs, d.dirs_removed);
    let top = dirs_updated(kept, d.dirs_upserted);
    let more = dirs_added(kept, d.dirs_upserted);
    let all = top + more;
    lemma_dirs_kept_paths(m.dirs, d.dirs_removed);
    lemma_dirs_updated_len(kept, d.dirs_upserted);
    lemma_dirs_added(kept, d.dirs_upserted, Seq::empty());
    assert forall|i: int| 0 <= i < all.len() implies !d.dirs_removed.contains(
        (#[trigger] all[i]).rel_path,
    ) by {
        if i < kept.len() {
            lemma_dirs_updated_at(kept, d.dirs_upserted, i);
            lemma_last_at(d.dirs_upserted, kept[i].rel_path);
            assert(all[i].rel_path == kept[i].rel_path);
        } else {
            assert(all[i] == more[i - kept.len()]);
            let k = choose|k: int|
                0 <= k < d.dirs_upserted.len() && d.dirs_upserted[k] == more[i - kept.len()];
            assert(!d.dirs_removed.contains(d.dirs_upserted[k].rel_path));
        }
    }
    lemma_dirs_kept_none_removed(all, d.dirs_removed);
    lemma_dirs_twice(kept, d.dirs_upserted);
    lemma_files_twice(m.files, d.files_upserted, d.files_removed);
}

proof fn lemma_dirs_kept_filter(dirs: Seq<DirView>, removed: Seq<Seq<char>>)
    ensures
        dirs_kept(dirs, removed) == dirs.filter(|dir: DirView| !removed.contains(dir.rel_path)),
    decreases dirs.len(),
{
    reveal(Seq::filter);
    if dirs.len() > 0 {
        lemma_dirs_kept_filter(dirs.drop_last(), removed);
    }
}

proof fn lemma_dirs_added_filter(base: Seq<DirView>, upserts: Seq<DirView>)
    ensures
        dirs_added(base, upserts) == upserts.filter(
            |dir: DirView|
                forall|i: int|
                    0 <= i < base.len() ==> (#[trigger] base[i]).rel_path != dir.rel_path,
        ),
    decreases upserts.len(),
{
    reveal(Seq::filter);
    if upserts.len() > 0 {
        lemma_dirs_added_filter(base, upserts.drop_last());
        lemma_last_at(base, upserts.last().rel_path);
    }
}

/// What a delta makes of the directories. Those whose path it does not remove
/// stay, in their order; behind them come the upserts whose path none of them
/// has, in theirs. Nothing else is listed. A directory that stays is as it was,
/// unless its path is upserted: its last entry is then the last upsert.
pub proof fn law_directories_after_a_delta(m: ManifestView, d: DeltaView, p: int, k: int)
    ensures
        ({
            let out = applied(m, d).dirs;
            let kept = m.dirs.filter(|dir: DirView| !d.dirs_removed.contains(dir.rel_path));
            let fresh = d.dirs_upserted.filter(
                |dir: DirView|
                    forall|i: int|
                        0 <= i < kept.len() ==> (#[trigger] kept[i]).rel_path != dir.rel_path,
            );
            &&& out.len() == kept.len() + fresh.len()
            &&& out.skip(kept.len() as int) == fresh
            &&& 0 <= p < kept.len() ==> {
                let path = kept[p].rel_path;
                let written = (forall|i: int|
                    p < i < kept.len() ==> (#[trigger] kept[i]).rel_path != path);
                &&& written && 0 <= k < d.dirs_upserted.len() && d.dirs_upserted[k].rel_path
                    == path && (forall|j: int|
                    k < j < d.dirs_upserted.len() ==> (#[trigger] d.dirs_upserted[j]).rel_path
                        != path) ==> out[p] == d.dirs_upserted[k]
                &&& !written || (forall|j: int|
                    0 <= j < d.dirs_upserted.len() ==> (#[trigger] d.dirs_upserted[j]).rel_path
                        != path) ==> out[p] == kept[p]
            }
        }),
{
    let kept = dirs_kept(m.dirs, d.dirs_removed);
    let ups = d.dirs_upserted;
    lemma_dirs_kept_filter(m.dirs, d.dirs_removed);
    lemma_dirs_added_filter(kept, ups);
    lemma_dirs_updated_len(kept, ups);
    let out = applied(m, d).dirs;
    assert(out.skip(kept.len() as int) =~= dirs_added(kept, ups));
    if 0 <= p < kept.len() {
        let path = kept[p].rel_path;
        lemma_dirs_updated_at(kept, ups, p);
        lemma_last_at(kept, path);
        lemma_last_at(ups, path);
        assert(out[p] == dirs_updated(kept, ups)[p]);
        let written = (forall|i: int|
            p < i < kept.len() ==> (#[trigger] kept[i]).rel_path != path);
        if written {
            assert(last_at(kept, path) is Some);
            assert(last_at(kept, path) == Some(p));
        } else {
            let i = choose|i: int| p < i < kept.len() && (#[trigger] kept[i]).rel_path == path;
            assert(last_at(kept, path) != Some(p));
        }
        if 0 <= k < ups.len() && ups[k].rel_path == path && (forall|j: int|
            k < j < ups.len() ==> (#[trigger] ups[j]).rel_path != path) {
            assert(last_at(ups, path) == Some(k));
        }
    }
}

/// What a delta makes of the files. A position it removes is a tombstone; one it
/// upserts otherwise is its last upsert; any other is as it was, or a tombstone
/// where the listing grew. The listing grows just far enough for every upsert.
pub proof fn law_files_after_a_delta(m: ManifestView, d: DeltaView, i: int)
    ensures
        ({
            let out = applied(m, d).files;
            let dead = FileView { rel_path: Seq::empty(), size: 0, mode: 0, mtime: 0 };
            let removed = exists|k: int|
                0 <= k < d.files_removed.len() && #[trigger] d.files_removed[k] == i;
            let named = exists|k: int|
                0 <= k < d.files_upserted.len() && (#[trigger] d.files_upserted[k]).0 == i;
            &&& out.len() >= m.files.len()
            &&& out.len() == m.files.len() || exists|k: int|
                0 <= k < d.files_upserted.len() && (#[trigger] d.files_upserted[k]).0 + 1
                    == out.len()
            &&& forall|k: int|
                0 <= k < d.files_upserted.len() ==> (#[trigger] d.files_upserted[k]).0 < out.len()
            &&& 0 <= i < out.len() && removed ==> out[i] == dead
            &&& 0 <= i < out.len() && !removed && named ==> exists|k: int|
                {
                    &&& 0 <= k < d.files_upserted.len()
                    &&& (#[trigger] d.files_upserted[k]).0 == i
                    &&& out[i] == d.files_upserted[k].1
                    &&& forall|j: int|
                        k < j < d.files_upserted.len() ==> (#[trigger] d.files_upserted[j]).0 != i
                }
            &&& 0 <= i < out.len() && !removed && !named ==> out[i] == (if i < m.files.len() {
                m.files[i]
            } else {
                dead
            })
        }),
{
    let ups = d.files_upserted;
    let put = files_put(m.files, ups);
    let out = applied(m, d).files;
    lemma_files_put(m.files, ups);
    lemma_files_put_len(m.files, ups);
    let removed = exists|k: int|
        0 <= k < d.files_removed.len() && #[trigger] d.files_removed[k] == i;
    if !(0 <= i < out.len()) {
    } else if removed {
        let k = choose|k: int| 0 <= k < d.files_removed.len() && #[trigger] d.files_removed[k] == i;
        assert(d.files_removed.contains(i as u32));
    } else {
        if d.files_removed.contains(i as u32) && i <= u32::MAX {
            let k = choose|k: int| 0 <= k < d.files_removed.len() && d.files_removed[k] == i as u32;
            assert(d.files_removed[k] == i);
        }
        assert(out[i] == put[i]);
        if exists|k: int| 0 <= k < ups.len() && (#[trigger] ups[k]).0 == i {
            let k = lemma_last_put(ups, i);
            lemma_files_put_last(m.files, ups, k);
        } else {
            if i < m.files.len() {
                assert(put[i] == m.files[i]);
            } else {
                assert(put[i] == tomb());
            }
        }
    }
}

proof fn lemma_last_put(upserts: Seq<(u32, FileView)>, i: int) -> (k: int)
    requires
        exists|k: int| 0 <= k < upserts.len() && (#[trigger] upserts[k]).0 == i,
    ensures
        0 <= k < upserts.len(),
        upserts[k].0 == i,
        forall|j: int| k < j < upserts.len() ==> (#[trigger] upserts[j]).0 != i,
    decreases upserts.len(),
{
    let n = upserts.len() - 1;
    if upserts[n].0 == i {
        n
    } else {
        let front = upserts.drop_last();
        let l = choose|l: int| 0 <= l < upserts.len() && (#[trigger] upserts[l]).0 == i;
        assert(front[l].0 == i);
        let k = lemma_last_put(front, i);
        assert forall|j: int| k < j < upserts.len() implies (#[trigger] upserts[j]).0 != i by {
            if j < n {
                assert(front[j] == upserts[j]);
            }
        }
        k
    }
}

proof fn lemma_files_put_len(files: Seq<FileView>, upserts: Seq<(u32, FileView)>)
    ensures
        files_put(files, upserts).len() == files.len() || exists|k: int|
            0 <= k < upserts.len() && (#[trigger] upserts[k]).0 + 1 == files_put(
                files,
                upserts,
            ).len(),
    decreases upserts.len(),
{
    if upserts.len() > 0 {
        let front = upserts.drop_last();
        let n = upserts.len() - 1;
        lemma_files_put_len(files, front);
        let before = files_put(files, front);
        if before.len() <= upserts[n].0 {
            assert(upserts[n].0 + 1 == files_put(files, upserts).len());
        } else if before.len() != files.len() {
            let k = choose|k: int| 0 <= k < front.len() && (#[trigger] front[k]).0 + 1 == before.len();
            assert(upserts[k] == front[k]);
        }
    }
}

/// A delta is written as four lists, each behind its length: directories to put,
/// paths of directories to drop, files to put with their positions, and positions of
/// files to drop.
pub proof fn law_a_delta_is_laid_out_in_order(d: DeltaView)
    ensures
        delta_bytes(d) == u32_le(d.dirs_upserted.len() as u32) + d.dirs_upserted.map_values(
            |dir: DirView| crate::manifest::dir_bytes(dir),
        ).flatten() + u32_le(d.dirs_removed.len() as u32) + d.dirs_removed.map_values(
            |path: Seq<char>| text16(path),
        ).flatten() + u32_le(d.files_upserted.len() as u32) + d.files_upserted.map_values(
            |slot: (u32, FileView)| u32_le(slot.0) + file_bytes(slot.1),
        ).flatten() + u32_le(d.files_removed.len() as u32) + d.files_removed.map_values(
            |index: u32| u32_le(index),
        ).flatten(),
{
    crate::codec::law_items_are_written_in_order(d.dirs_upserted, put_dir());
    crate::codec::law_items_are_written_in_order(d.dirs_removed, put_text());
    crate::codec::law_items_are_written_in_order(d.files_upserted, put_slot());
    crate::codec::law_items_are_written_in_order(d.files_removed, put_index());
    assert(d.dirs_upserted.map_values(|dir: DirView| crate::manifest::dir_bytes(dir))
        =~= d.dirs_upserted.map_values(put_dir()));
    assert(d.dirs_removed.map_values(|path: Seq<char>| text16(path)) =~= d.dirs_removed.map_values(
        put_text(),
    ));
    assert(d.files_upserted.map_values(
        |slot: (u32, FileView)| u32_le(slot.0) + file_bytes(slot.1),
    ) =~= d.files_upserted.map_values(put_slot()));
    assert(d.files_removed.map_values(|index: u32| u32_le(index)) =~= d.files_removed.map_values(
        put_index(),
    ));
    assert(delta_bytes(d) =~= u32_le(d.dirs_upserted.len() as u32) + bytes_of(
        d.dirs_upserted,
        put_dir(),
    ) + u32_le(d.dirs_removed.len() as u32) + bytes_of(d.dirs_removed, put_text()) + u32_le(
        d.files_upserted.len() as u32,
    ) + bytes_of(d.files_upserted, put_slot()) + u32_le(d.files_removed.len() as u32) + bytes_of(
        d.files_removed,
        put_index(),
    ));
}

} // verus!
