//! Byte layouts shared by every message: little-endian integers,
//! length-prefixed text, counted lists, and a cursor that reads them back.
use crate::error::WireError;
use vstd::prelude::*;
use vstd::utf8::{decode_utf8, encode_utf8, valid_utf8};

verus! {

/// A value read off the front of some bytes, and the bytes behind it.
pub type Parsed<T> = Result<(T, Seq<u8>), WireError>;

pub open spec fn u16_le(x: u16) -> Seq<u8> {
    seq![(x % 256) as u8, (x / 256) as u8]
}

pub open spec fn u32_le(x: u32) -> Seq<u8> {
    u16_le((x % 0x1_0000) as u16) + u16_le((x / 0x1_0000) as u16)
}

pub open spec fn u64_le(x: u64) -> Seq<u8> {
    u32_le((x % 0x1_0000_0000) as u32) + u32_le((x / 0x1_0000_0000) as u32)
}

/// The two's complement image of `x`.
pub open spec fn i64_image(x: i64) -> u64 {
    if x < 0 {
        (x + 0x1_0000_0000_0000_0000) as u64
    } else {
        x as u64
    }
}

pub open spec fn i64_le(x: i64) -> Seq<u8> {
    u64_le(i64_image(x))
}

/// The number whose little-endian bytes start `s`.
pub open spec fn u16_of(s: Seq<u8>) -> u16 {
    (s[0] + 256 * s[1]) as u16
}

pub open spec fn u32_of(s: Seq<u8>) -> u32 {
    (u16_of(s) + 0x1_0000 * u16_of(s.skip(2))) as u32
}

pub open spec fn u64_of(s: Seq<u8>) -> u64 {
    (u32_of(s) + 0x1_0000_0000 * u32_of(s.skip(4))) as u64
}

pub open spec fn i64_of(s: Seq<u8>) -> i64 {
    let x = u64_of(s);
    if x >= 0x8000_0000_0000_0000 {
        (x - 0x1_0000_0000_0000_0000) as i64
    } else {
        x as i64
    }
}

pub proof fn lemma_concat_assoc(a: Seq<u8>, b: Seq<u8>, c: Seq<u8>)
    ensures
        (a + b) + c == a + (b + c),
{
    assert((a + b) + c =~= a + (b + c));
}

/// A sequence is its first `n` items and the rest, and nothing behind the whole.
pub proof fn lemma_split(s: Seq<u8>, n: int)
    requires
        0 <= n <= s.len(),
    ensures
        s == s.take(n) + s.skip(n),
        s + Seq::<u8>::empty() == s,
        s.skip(n).len() == s.len() - n,
{
    assert(s =~= s.take(n) + s.skip(n));
    assert(s + Seq::<u8>::empty() =~= s);
}

/// The head of a concatenation comes off it.
pub proof fn lemma_cut(a: Seq<u8>, b: Seq<u8>)
    ensures
        (a + b).take(a.len() as int) == a,
        (a + b).skip(a.len() as int) == b,
{
    assert((a + b).take(a.len() as int) =~= a);
    assert((a + b).skip(a.len() as int) =~= b);
}

pub proof fn lemma_u16_le(x: u16, rest: Seq<u8>)
    ensures
        u16_le(x).len() == 2,
        u16_of(u16_le(x) + rest) == x,
        (u16_le(x) + rest).skip(2) == rest,
{
    let s = u16_le(x) + rest;
    assert(s[0] == (x % 256) as u8 && s[1] == (x / 256) as u8);
    assert(s.skip(2) =~= rest);
}

pub proof fn lemma_u16_of(s: Seq<u8>)
    requires
        s.len() >= 2,
    ensures
        s == u16_le(u16_of(s)) + s.skip(2),
{
    let x = u16_of(s);
    assert(x == s[0] + 256 * s[1]);
    assert(s =~= u16_le(x) + s.skip(2));
}

pub proof fn lemma_u32_le(x: u32, rest: Seq<u8>)
    ensures
        u32_le(x).len() == 4,
        u32_of(u32_le(x) + rest) == x,
        (u32_le(x) + rest).skip(4) == rest,
{
    let lo = (x % 0x1_0000) as u16;
    let hi = (x / 0x1_0000) as u16;
    let s = u32_le(x) + rest;
    assert(s =~= u16_le(lo) + (u16_le(hi) + rest));
    lemma_u16_le(lo, u16_le(hi) + rest);
    lemma_u16_le(hi, rest);
    assert(s.skip(4) =~= rest);
}

pub proof fn lemma_u32_of(s: Seq<u8>)
    requires
        s.len() >= 4,
    ensures
        s == u32_le(u32_of(s)) + s.skip(4),
{
    lemma_u16_of(s);
    lemma_u16_of(s.skip(2));
    let x = u32_of(s);
    assert(x == u16_of(s) + 0x1_0000 * u16_of(s.skip(2)));
    assert((x % 0x1_0000) as u16 == u16_of(s));
    assert((x / 0x1_0000) as u16 == u16_of(s.skip(2)));
    assert(s.skip(2).skip(2) =~= s.skip(4));
    assert(s =~= u32_le(x) + s.skip(4));
}

pub proof fn lemma_u64_le(x: u64, rest: Seq<u8>)
    ensures
        u64_le(x).len() == 8,
        u64_of(u64_le(x) + rest) == x,
        (u64_le(x) + rest).skip(8) == rest,
{
    let lo = (x % 0x1_0000_0000) as u32;
    let hi = (x / 0x1_0000_0000) as u32;
    let s = u64_le(x) + rest;
    assert(s =~= u32_le(lo) + (u32_le(hi) + rest));
    lemma_u32_le(lo, u32_le(hi) + rest);
    lemma_u32_le(hi, rest);
    assert(s.skip(8) =~= rest);
}

proof fn lemma_halves(lo: u32, hi: u32, x: u64)
    requires
        x == lo + 0x1_0000_0000 * hi,
    ensures
        (x % 0x1_0000_0000) as u32 == lo,
        (x / 0x1_0000_0000) as u32 == hi,
{
}

#[verifier::spinoff_prover]
pub proof fn lemma_u64_of(s: Seq<u8>)
    requires
        s.len() >= 8,
    ensures
        s == u64_le(u64_of(s)) + s.skip(8),
{
    lemma_u32_of(s);
    lemma_u32_of(s.skip(4));
    let x = u64_of(s);
    let lo = u32_of(s);
    let hi = u32_of(s.skip(4));
    lemma_halves(lo, hi, x);
    assert(s.skip(4).skip(4) =~= s.skip(8));
    lemma_concat_assoc(u32_le(lo), u32_le(hi), s.skip(8));
}

pub proof fn lemma_i64_le(x: i64, rest: Seq<u8>)
    ensures
        i64_le(x).len() == 8,
        i64_of(i64_le(x) + rest) == x,
        (i64_le(x) + rest).skip(8) == rest,
{
    lemma_u64_le(i64_image(x), rest);
}

pub proof fn lemma_i64_of(s: Seq<u8>)
    requires
        s.len() >= 8,
    ensures
        s == i64_le(i64_of(s)) + s.skip(8),
{
    lemma_u64_of(s);
    assert(i64_image(i64_of(s)) == u64_of(s));
}

/// Text with its length in front: `len(u16) ‖ utf-8`.
pub open spec fn text16(text: Seq<char>) -> Seq<u8> {
    u16_le(encode_utf8(text).len() as u16) + encode_utf8(text)
}

/// Whether `text` fits behind a 16-bit length.
pub open spec fn fits16(text: Seq<char>) -> bool {
    encode_utf8(text).len() <= u16::MAX
}

pub open spec fn parse_bytes(s: Seq<u8>, n: nat) -> Parsed<Seq<u8>> {
    if s.len() < n {
        Err(WireError::Truncated)
    } else {
        Ok((s.take(n as int), s.skip(n as int)))
    }
}

pub open spec fn parse_u8(s: Seq<u8>) -> Parsed<u8> {
    if s.len() < 1 {
        Err(WireError::Truncated)
    } else {
        Ok((s[0], s.skip(1)))
    }
}

pub open spec fn parse_u16(s: Seq<u8>) -> Parsed<u16> {
    if s.len() < 2 {
        Err(WireError::Truncated)
    } else {
        Ok((u16_of(s), s.skip(2)))
    }
}

pub open spec fn parse_u32(s: Seq<u8>) -> Parsed<u32> {
    if s.len() < 4 {
        Err(WireError::Truncated)
    } else {
        Ok((u32_of(s), s.skip(4)))
    }
}

pub open spec fn parse_u64(s: Seq<u8>) -> Parsed<u64> {
    if s.len() < 8 {
        Err(WireError::Truncated)
    } else {
        Ok((u64_of(s), s.skip(8)))
    }
}

pub open spec fn parse_i64(s: Seq<u8>) -> Parsed<i64> {
    if s.len() < 8 {
        Err(WireError::Truncated)
    } else {
        Ok((i64_of(s), s.skip(8)))
    }
}

pub open spec fn parse_text16(s: Seq<u8>) -> Parsed<Seq<char>> {
    match parse_u16(s) {
        Err(e) => Err(e),
        Ok((len, behind)) => match parse_bytes(behind, len as nat) {
            Err(e) => Err(e),
            Ok((raw, rest)) => if valid_utf8(raw) {
                Ok((decode_utf8(raw), rest))
            } else {
                Err(WireError::NotUtf8)
            },
        },
    }
}

pub proof fn lemma_text16_parses(text: Seq<char>, rest: Seq<u8>)
    requires
        fits16(text),
    ensures
        parse_text16(text16(text) + rest) == Ok::<(Seq<char>, Seq<u8>), WireError>((text, rest)),
{
    let raw = encode_utf8(text);
    let len = raw.len() as u16;
    let s = text16(text) + rest;
    assert(s =~= u16_le(len) + (raw + rest));
    lemma_u16_le(len, raw + rest);
    assert((raw + rest).take(len as int) =~= raw);
    assert((raw + rest).skip(len as int) =~= rest);
    vstd::utf8::encode_utf8_valid_utf8(text);
    vstd::utf8::encode_utf8_decode_utf8(text);
}

pub proof fn lemma_text16_canonical(s: Seq<u8>)
    ensures
        parse_text16(s) matches Ok((text, rest)) ==> fits16(text) && s == text16(text) + rest,
{
    if let Ok((text, rest)) = parse_text16(s) {
        lemma_u16_of(s);
        let len = u16_of(s);
        let raw = s.skip(2).take(len as int);
        vstd::utf8::decode_utf8_encode_utf8(raw);
        assert(encode_utf8(text) == raw);
        assert(s =~= u16_le(len) + (raw + rest));
        assert(s =~= text16(text) + rest);
    }
}

/// `n` items read one behind the other.
pub open spec fn parse_many<T>(s: Seq<u8>, n: nat, item: spec_fn(Seq<u8>) -> Parsed<T>) -> Parsed<
    Seq<T>,
>
    decreases n,
{
    if n == 0 {
        Ok((Seq::empty(), s))
    } else {
        match item(s) {
            Err(e) => Err(e),
            Ok((v, rest)) => match parse_many(rest, (n - 1) as nat, item) {
                Err(e) => Err(e),
                Ok((vs, end)) => Ok((seq![v] + vs, end)),
            },
        }
    }
}

/// Items written one behind the other.
pub open spec fn bytes_of<T>(items: Seq<T>, item: spec_fn(T) -> Seq<u8>) -> Seq<u8>
    decreases items.len(),
{
    if items.len() == 0 {
        Seq::empty()
    } else {
        bytes_of(items.drop_last(), item) + item(items.last())
    }
}

/// The outcome of a list read whose first items are already in hand.
pub open spec fn prepend<T>(head: Seq<T>, tail: Parsed<Seq<T>>) -> Parsed<Seq<T>> {
    match tail {
        Err(e) => Err(e),
        Ok((vs, end)) => Ok((head + vs, end)),
    }
}

pub proof fn lemma_prepend_nothing<T>(tail: Parsed<Seq<T>>)
    ensures
        prepend(Seq::empty(), tail) == tail,
{
    if let Ok((vs, end)) = tail {
        assert(Seq::<T>::empty() + vs =~= vs);
    }
}

pub proof fn lemma_parse_step<T>(
    head: Seq<T>,
    s: Seq<u8>,
    n: nat,
    item: spec_fn(Seq<u8>) -> Parsed<T>,
)
    requires
        n > 0,
    ensures
        prepend(head, parse_many(s, n, item)) == (match item(s) {
            Err(e) => Err(e),
            Ok((v, rest)) => prepend(head.push(v), parse_many(rest, (n - 1) as nat, item)),
        }),
{
    if let Ok((v, rest)) = item(s) {
        if let Ok((vs, end)) = parse_many(rest, (n - 1) as nat, item) {
            assert(head + (seq![v] + vs) =~= head.push(v) + vs);
        }
    }
}

pub proof fn lemma_bytes_of_push<T>(items: Seq<T>, v: T, item: spec_fn(T) -> Seq<u8>)
    ensures
        bytes_of(items.push(v), item) == bytes_of(items, item) + item(v),
{
    assert(items.push(v).drop_last() =~= items);
}

pub proof fn lemma_bytes_of_front<T>(items: Seq<T>, item: spec_fn(T) -> Seq<u8>)
    requires
        items.len() > 0,
    ensures
        bytes_of(items, item) == item(items[0]) + bytes_of(items.skip(1), item),
    decreases items.len(),
{
    let front = items.drop_last();
    if items.len() == 1 {
        assert(front =~= Seq::empty());
        assert(items.skip(1) =~= Seq::empty());
        assert(bytes_of(items, item) =~= item(items[0]) + bytes_of(items.skip(1), item));
    } else {
        lemma_bytes_of_front(front, item);
        assert(front.skip(1) =~= items.skip(1).drop_last());
        assert(items.skip(1).last() == items.last());
        assert(bytes_of(items, item) =~= item(items[0]) + bytes_of(items.skip(1), item));
    }
}

pub proof fn lemma_many_parses<T>(
    items: Seq<T>,
    rest: Seq<u8>,
    put: spec_fn(T) -> Seq<u8>,
    get: spec_fn(Seq<u8>) -> Parsed<T>,
)
    requires
        forall|i: int, r: Seq<u8>|
            0 <= i < items.len() ==> #[trigger] get(put(items[i]) + r) == Ok::<
                (T, Seq<u8>),
                WireError,
            >((items[i], r)),
    ensures
        parse_many(bytes_of(items, put) + rest, items.len(), get) == Ok::<
            (Seq<T>, Seq<u8>),
            WireError,
        >((items, rest)),
    decreases items.len(),
{
    let s = bytes_of(items, put) + rest;
    if items.len() == 0 {
        assert(s =~= rest);
        assert(items =~= Seq::empty());
    } else {
        let tail = items.skip(1);
        let behind = bytes_of(tail, put) + rest;
        lemma_bytes_of_front(items, put);
        assert(s =~= put(items[0]) + behind);
        assert(get(put(items[0]) + behind) == Ok::<(T, Seq<u8>), WireError>((items[0], behind)));
        assert forall|i: int, r: Seq<u8>| 0 <= i < tail.len() implies #[trigger] get(
            put(tail[i]) + r,
        ) == Ok::<(T, Seq<u8>), WireError>((tail[i], r)) by {
            assert(tail[i] == items[i + 1]);
            assert(get(put(items[i + 1]) + r) == Ok::<(T, Seq<u8>), WireError>((items[i + 1], r)));
        }
        lemma_many_parses(tail, rest, put, get);
        assert(seq![items[0]] + tail =~= items);
    }
}

pub proof fn lemma_many_canonical<T>(
    s: Seq<u8>,
    n: nat,
    put: spec_fn(T) -> Seq<u8>,
    get: spec_fn(Seq<u8>) -> Parsed<T>,
    ok: spec_fn(T) -> bool,
)
    requires
        forall|t: Seq<u8>|
            (#[trigger] get(t)) matches Ok((v, r)) ==> ok(v) && t == put(v) + r,
    ensures
        parse_many(s, n, get) matches Ok((vs, r)) ==> {
            &&& vs.len() == n
            &&& s == bytes_of(vs, put) + r
            &&& forall|i: int| 0 <= i < vs.len() ==> ok(#[trigger] vs[i])
        },
    decreases n,
{
    if let Ok((vs, r)) = parse_many(s, n, get) {
        if n == 0 {
            assert(bytes_of(vs, put) + r =~= s);
        } else {
            let (v, rest) = get(s)->Ok_0;
            let (tail, end) = parse_many(rest, (n - 1) as nat, get)->Ok_0;
            lemma_many_canonical(rest, (n - 1) as nat, put, get, ok);
            lemma_bytes_of_front(vs, put);
            assert(vs.skip(1) =~= tail);
            assert(s =~= bytes_of(vs, put) + r);
            assert forall|i: int| 0 <= i < vs.len() implies ok(#[trigger] vs[i]) by {
                if i > 0 {
                    assert(vs[i] == tail[i - 1]);
                }
            }
        }
    }
}

/// Appends the little-endian bytes of `x`.
pub fn put_u16(out: &mut Vec<u8>, x: u16)
    ensures
        final(out)@ == old(out)@ + u16_le(x),
{
    out.push((x % 256) as u8);
    out.push((x / 256) as u8);
    assert(out@ =~= old(out)@ + u16_le(x));
}

pub fn put_u32(out: &mut Vec<u8>, x: u32)
    ensures
        final(out)@ == old(out)@ + u32_le(x),
{
    put_u16(out, (x % 0x1_0000) as u16);
    put_u16(out, (x / 0x1_0000) as u16);
    assert(out@ =~= old(out)@ + u32_le(x));
}

pub fn put_u64(out: &mut Vec<u8>, x: u64)
    ensures
        final(out)@ == old(out)@ + u64_le(x),
{
    put_u32(out, (x % 0x1_0000_0000) as u32);
    put_u32(out, (x / 0x1_0000_0000) as u32);
    assert(out@ =~= old(out)@ + u64_le(x));
}

pub fn put_i64(out: &mut Vec<u8>, x: i64)
    ensures
        final(out)@ == old(out)@ + i64_le(x),
{
    let image: u64 = if x < 0 {
        (x + i64::MAX + 1) as u64 + 0x8000_0000_0000_0000
    } else {
        x as u64
    };
    put_u64(out, image);
}

/// Appends `bytes`.
pub fn put_bytes(out: &mut Vec<u8>, bytes: &[u8])
    ensures
        final(out)@ == old(out)@ + bytes@,
{
    out.extend_from_slice(bytes);
    assert(out@ =~= old(out)@ + bytes@);
}

/// Appends `text` behind its 16-bit length.
pub fn put_text16(out: &mut Vec<u8>, text: &str)
    requires
        fits16(text@),
    ensures
        final(out)@ == old(out)@ + text16(text@),
{
    let raw = text.as_bytes();
    put_u16(out, raw.len() as u16);
    put_bytes(out, raw);
    assert(out@ =~= old(out)@ + text16(text@));
}

/// Text from its UTF-8 bytes, through `String::from_utf8`: present exactly when
/// the bytes are UTF-8, and then the text they encode.
#[verifier::external_body]
pub(crate) fn utf8_text(bytes: Vec<u8>) -> (text: Option<String>)
    ensures
        text is Some <==> valid_utf8(bytes@),
        text matches Some(t) ==> t@ == decode_utf8(bytes@),
{
    String::from_utf8(bytes).ok()
}

/// The number in the first two bytes of `bytes`.
pub fn get_u16(bytes: &[u8]) -> (x: u16)
    requires
        bytes@.len() >= 2,
    ensures
        x == u16_of(bytes@),
{
    bytes[0] as u16 + 256 * (bytes[1] as u16)
}

pub fn get_u32(bytes: &[u8]) -> (x: u32)
    requires
        bytes@.len() >= 4,
    ensures
        x == u32_of(bytes@),
{
    let lo: u16 = get_u16(bytes);
    let hi: u16 = bytes[2] as u16 + 256 * (bytes[3] as u16);
    assert(hi == u16_of(bytes@.skip(2)));
    lo as u32 + 0x1_0000 * (hi as u32)
}

pub fn get_u64(bytes: &[u8]) -> (x: u64)
    requires
        bytes@.len() >= 8,
    ensures
        x == u64_of(bytes@),
{
    let lo: u32 = get_u32(bytes);
    let behind = vstd::slice::slice_subrange(bytes, 4, bytes.len());
    assert(behind@ =~= bytes@.skip(4));
    let hi: u32 = get_u32(behind);
    lo as u64 + 0x1_0000_0000 * (hi as u64)
}

/// The 32 bytes at the front of `bytes`.
pub fn get_array32(bytes: &[u8]) -> (out: [u8; 32])
    requires
        bytes@.len() >= 32,
    ensures
        out@ == bytes@.take(32),
{
    let mut out: [u8; 32] = [0u8; 32];
    let mut i: usize = 0;
    while i < 32
        invariant
            0 <= i <= 32,
            bytes@.len() >= 32,
            forall|j: int| 0 <= j < i ==> out[j] == bytes@[j],
        decreases 32 - i,
    {
        out[i] = bytes[i];
        i += 1;
    }
    assert(out@ =~= bytes@.take(32));
    out
}

/// The 64 bytes at the front of `bytes`.
pub fn get_array64(bytes: &[u8]) -> (out: [u8; 64])
    requires
        bytes@.len() >= 64,
    ensures
        out@ == bytes@.take(64),
{
    let mut out: [u8; 64] = [0u8; 64];
    let mut i: usize = 0;
    while i < 64
        invariant
            0 <= i <= 64,
            bytes@.len() >= 64,
            forall|j: int| 0 <= j < i ==> out[j] == bytes@[j],
        decreases 64 - i,
    {
        out[i] = bytes[i];
        i += 1;
    }
    assert(out@ =~= bytes@.take(64));
    out
}

/// Reads fields off the front of a byte slice, one behind the other.
pub struct Cursor<'a> {
    bytes: &'a [u8],
    pos: usize,
}

impl<'a> Cursor<'a> {
    pub closed spec fn wf(&self) -> bool {
        self.pos <= self.bytes@.len()
    }

    /// What has not been read yet.
    pub closed spec fn rest(&self) -> Seq<u8> {
        self.bytes@.skip(self.pos as int)
    }

    /// The bytes this cursor reads.
    pub closed spec fn all(&self) -> Seq<u8> {
        self.bytes@
    }

    /// How far it has read.
    pub closed spec fn at(&self) -> nat {
        self.pos as nat
    }

    /// Whether this cursor reads the same bytes as `other`, no less far.
    pub open spec fn tail_of(&self, other: Self) -> bool {
        self.all() == other.all() && self.at() >= other.at()
    }

    /// What has not been read is what stands behind the position.
    pub proof fn lemma_rest(&self)
        requires
            self.wf(),
        ensures
            self.at() <= self.all().len(),
            self.rest() == self.all().skip(self.at() as int),
    {
    }

    pub fn new(bytes: &'a [u8]) -> (cursor: Self)
        ensures
            cursor.wf(),
            cursor.rest() == bytes@,
            cursor.all() == bytes@,
            cursor.at() == 0,
    {
        let cursor = Cursor { bytes, pos: 0 };
        assert(bytes@.skip(0) =~= bytes@);
        cursor
    }

    /// How many bytes have not been read yet.
    pub fn remaining(&self) -> (n: usize)
        requires
            self.wf(),
        ensures
            n == self.rest().len(),
    {
        self.bytes.len() - self.pos
    }

    pub fn take(&mut self, n: usize) -> (out: Result<&'a [u8], WireError>)
        requires
            old(self).wf(),
        ensures
            final(self).wf(),
            final(self).tail_of(*old(self)),
            final(self).rest().len() <= old(self).rest().len(),
            match parse_bytes(old(self).rest(), n as nat) {
                Err(e) => out == Err::<&'a [u8], WireError>(e),
                Ok((v, rest)) => out is Ok && out->Ok_0@ == v && final(self).rest() == rest,
            },
    {
        if self.bytes.len() - self.pos < n {
            return Err(WireError::Truncated);
        }
        let out = vstd::slice::slice_subrange(self.bytes, self.pos, self.pos + n);
        assert(out@ =~= self.rest().take(n as int));
        self.pos = self.pos + n;
        assert(self.rest() =~= old(self).rest().skip(n as int));
        Ok(out)
    }

    pub fn take_u8(&mut self) -> (out: Result<u8, WireError>)
        requires
            old(self).wf(),
        ensures
            final(self).wf(),
            final(self).tail_of(*old(self)),
            final(self).rest().len() <= old(self).rest().len(),
            match parse_u8(old(self).rest()) {
                Err(e) => out == Err::<u8, WireError>(e),
                Ok((v, rest)) => out == Ok::<u8, WireError>(v) && final(self).rest() == rest,
            },
    {
        match self.take(1) {
            Err(e) => Err(e),
            Ok(raw) => Ok(raw[0]),
        }
    }

    pub fn take_u16(&mut self) -> (out: Result<u16, WireError>)
        requires
            old(self).wf(),
        ensures
            final(self).wf(),
            final(self).tail_of(*old(self)),
            final(self).rest().len() <= old(self).rest().len(),
            match parse_u16(old(self).rest()) {
                Err(e) => out == Err::<u16, WireError>(e),
                Ok((v, rest)) => out == Ok::<u16, WireError>(v) && final(self).rest() == rest,
            },
    {
        match self.take(2) {
            Err(e) => Err(e),
            Ok(raw) => Ok(get_u16(raw)),
        }
    }

    pub fn take_u32(&mut self) -> (out: Result<u32, WireError>)
        requires
            old(self).wf(),
        ensures
            final(self).wf(),
            final(self).tail_of(*old(self)),
            final(self).rest().len() <= old(self).rest().len(),
            match parse_u32(old(self).rest()) {
                Err(e) => out == Err::<u32, WireError>(e),
                Ok((v, rest)) => out == Ok::<u32, WireError>(v) && final(self).rest() == rest,
            },
    {
        match self.take(4) {
            Err(e) => Err(e),
            Ok(raw) => {
                assert(raw@.skip(2)[0] == old(self).rest().skip(2)[0]);
                Ok(get_u32(raw))
            },
        }
    }

    pub fn take_u64(&mut self) -> (out: Result<u64, WireError>)
        requires
            old(self).wf(),
        ensures
            final(self).wf(),
            final(self).tail_of(*old(self)),
            final(self).rest().len() <= old(self).rest().len(),
            match parse_u64(old(self).rest()) {
                Err(e) => out == Err::<u64, WireError>(e),
                Ok((v, rest)) => out == Ok::<u64, WireError>(v) && final(self).rest() == rest,
            },
    {
        match self.take(8) {
            Err(e) => Err(e),
            Ok(raw) => {
                proof {
                    lemma_u64_of_prefix(old(self).rest());
                }
                Ok(get_u64(raw))
            },
        }
    }

    pub fn take_i64(&mut self) -> (out: Result<i64, WireError>)
        requires
            old(self).wf(),
        ensures
            final(self).wf(),
            final(self).tail_of(*old(self)),
            final(self).rest().len() <= old(self).rest().len(),
            match parse_i64(old(self).rest()) {
                Err(e) => out == Err::<i64, WireError>(e),
                Ok((v, rest)) => out == Ok::<i64, WireError>(v) && final(self).rest() == rest,
            },
    {
        match self.take_u64() {
            Err(e) => Err(e),
            Ok(image) => Ok(
                if image >= 0x8000_0000_0000_0000 {
                    (image - 0x8000_0000_0000_0000) as i64 - i64::MAX - 1
                } else {
                    image as i64
                },
            ),
        }
    }

    /// A path: `len(u16) ‖ utf-8`.
    pub fn take_path(&mut self) -> (out: Result<String, WireError>)
        requires
            old(self).wf(),
        ensures
            final(self).wf(),
            final(self).tail_of(*old(self)),
            final(self).rest().len() <= old(self).rest().len(),
            match parse_text16(old(self).rest()) {
                Err(e) => out == Err::<String, WireError>(e),
                Ok((v, rest)) => out is Ok && out->Ok_0@ == v && final(self).rest() == rest,
            },
    {
        let len: u16 = match self.take_u16() {
            Err(e) => return Err(e),
            Ok(len) => len,
        };
        let raw = match self.take(len as usize) {
            Err(e) => return Err(e),
            Ok(raw) => raw,
        };
        match utf8_text(vstd::slice::slice_to_vec(raw)) {
            Some(text) => Ok(text),
            None => Err(WireError::NotUtf8),
        }
    }
}

proof fn lemma_u64_of_prefix(s: Seq<u8>)
    requires
        s.len() >= 8,
    ensures
        u64_of(s.take(8)) == u64_of(s),
{
    let t = s.take(8);
    assert(t.skip(2)[0] == s.skip(2)[0] && t.skip(2)[1] == s.skip(2)[1]);
    assert(t.skip(4)[0] == s.skip(4)[0] && t.skip(4)[1] == s.skip(4)[1]);
    assert(t.skip(4).skip(2)[0] == s.skip(4).skip(2)[0]);
    assert(t.skip(4).skip(2)[1] == s.skip(4).skip(2)[1]);
}

/// Numbers are written with the byte that counts least first; a negative one as the
/// number above it by two to the sixty-fourth.
pub proof fn law_numbers_are_written_least_first(a: u16, b: u32, c: u64, d: i64)
    ensures
        u16_le(a).len() == 2,
        u16_le(a)[0] + 256 * u16_le(a)[1] == a,
        u32_le(b).len() == 4,
        u32_le(b)[0] + 256 * u32_le(b)[1] + 65_536 * u32_le(b)[2] + 16_777_216 * u32_le(b)[3] == b,
        u64_le(c).len() == 8,
        u64_le(c)[0] + 256 * u64_le(c)[1] + 65_536 * u64_le(c)[2] + 16_777_216 * u64_le(c)[3]
            + 4_294_967_296 * (u64_le(c)[4] + 256 * u64_le(c)[5] + 65_536 * u64_le(c)[6]
            + 16_777_216 * u64_le(c)[7]) == c,
        d >= 0 ==> i64_le(d) == u64_le(d as u64),
        d < 0 ==> i64_le(d) == u64_le((d + 0x1_0000_0000_0000_0000) as u64),
{
    crate::serve::lemma_number4(b, Seq::empty());
    assert(u32_le(b) + Seq::<u8>::empty() =~= u32_le(b));
    crate::serve::lemma_number8(c, Seq::empty());
    assert(u64_le(c) + Seq::<u8>::empty() =~= u64_le(c));
    assert(u64_le(c).skip(4)[0] == u64_le(c)[4]);
}

/// A text is written as its UTF-8 behind the length of that in two bytes.
pub proof fn law_a_text_is_written_behind_its_length(text: Seq<char>)
    requires
        encode_utf8(text).len() <= 65_535,
    ensures
        text16(text).len() == 2 + encode_utf8(text).len(),
        text16(text)[0] + 256 * text16(text)[1] == encode_utf8(text).len(),
        text16(text).skip(2) == encode_utf8(text),
{
    let len = encode_utf8(text).len() as u16;
    assert(text16(text)[0] == (len % 256) as u8);
    assert(text16(text)[1] == (len / 256) as u8);
    assert(text16(text).skip(2) =~= encode_utf8(text));
}

/// Items are written one behind the other, in their order, with nothing between.
pub proof fn law_items_are_written_in_order<T>(items: Seq<T>, item: spec_fn(T) -> Seq<u8>)
    ensures
        bytes_of(items, item) == items.map_values(item).flatten(),
    decreases items.len(),
{
    if items.len() == 0 {
        assert(items.map_values(item) =~= Seq::empty());
    } else {
        let front = items.drop_last();
        law_items_are_written_in_order(front, item);
        assert(items.map_values(item) =~= front.map_values(item).push(item(items.last())));
        front.map_values(item).lemma_flatten_push(item(items.last()));
    }
}

} // verus!
