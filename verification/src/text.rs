//! Text helpers: equality and order on strings, lowercase hex, decimal.
use vstd::prelude::*;
use vstd::utf8::{encode_utf8, encode_utf8_decode_utf8};

verus! {

/// `String::push` appends one character.
pub assume_specification[ String::push ](text: &mut String, c: char)
    ensures
        final(text)@ == old(text)@.push(c),
;

/// `String::push_str` appends the characters of a slice.
pub assume_specification[ String::push_str ](text: &mut String, tail: &str)
    ensures
        final(text)@ == old(text)@ + tail@,
;

/// Whether two byte slices hold the same bytes.
pub fn bytes_eq(a: &[u8], b: &[u8]) -> (same: bool)
    ensures
        same == (a@ == b@),
{
    if a.len() != b.len() {
        return false;
    }
    let mut i: usize = 0;
    while i < a.len()
        invariant
            0 <= i <= a@.len(),
            a@.len() == b@.len(),
            forall|j: int| 0 <= j < i ==> a@[j] == b@[j],
        decreases a@.len() - i,
    {
        if a[i] != b[i] {
            return false;
        }
        i += 1;
    }
    assert(a@ =~= b@);
    true
}

/// UTF-8 tells any two texts apart.
pub proof fn lemma_utf8_injective(a: Seq<char>, b: Seq<char>)
    ensures
        encode_utf8(a) == encode_utf8(b) ==> a == b,
{
    encode_utf8_decode_utf8(a);
    encode_utf8_decode_utf8(b);
}

/// Whether two texts are the same.
pub fn text_eq(a: &str, b: &str) -> (same: bool)
    ensures
        same == (a@ == b@),
{
    proof {
        lemma_utf8_injective(a@, b@);
    }
    bytes_eq(a.as_bytes(), b.as_bytes())
}

/// Lexicographic order on byte sequences.
pub open spec fn bytes_lt(a: Seq<u8>, b: Seq<u8>) -> bool
    decreases a.len(),
{
    if b.len() == 0 {
        false
    } else if a.len() == 0 {
        true
    } else if a[0] != b[0] {
        a[0] < b[0]
    } else {
        bytes_lt(a.skip(1), b.skip(1))
    }
}

/// The order `str` has: that of the UTF-8 bytes.
#[verifier::opaque]
pub open spec fn text_lt(a: Seq<char>, b: Seq<char>) -> bool {
    bytes_lt(encode_utf8(a), encode_utf8(b))
}

proof fn lemma_bytes_lt_step(a: Seq<u8>, b: Seq<u8>, i: int)
    requires
        0 <= i < a.len(),
        i < b.len(),
        a[i] == b[i],
    ensures
        bytes_lt(a.skip(i), b.skip(i)) == bytes_lt(a.skip(i + 1), b.skip(i + 1)),
{
    assert(a.skip(i).skip(1) =~= a.skip(i + 1));
    assert(b.skip(i).skip(1) =~= b.skip(i + 1));
}

/// The order is total: of two different sequences one is below the other.
pub proof fn lemma_bytes_lt_total(a: Seq<u8>, b: Seq<u8>)
    ensures
        a == b || bytes_lt(a, b) || bytes_lt(b, a),
        !(bytes_lt(a, b) && bytes_lt(b, a)),
        !bytes_lt(a, a),
    decreases a.len(),
{
    if a.len() > 0 && b.len() > 0 {
        lemma_bytes_lt_total(a.skip(1), b.skip(1));
        if a[0] == b[0] && a.skip(1) == b.skip(1) {
            assert(a =~= seq![a[0]] + a.skip(1));
            assert(b =~= seq![b[0]] + b.skip(1));
        }
    } else {
        assert(a.len() == 0 && b.len() == 0 ==> a =~= b);
    }
    if a.len() > 0 {
        lemma_bytes_lt_total(a.skip(1), a.skip(1));
    }
}

pub proof fn lemma_bytes_lt_transitive(a: Seq<u8>, b: Seq<u8>, c: Seq<u8>)
    requires
        bytes_lt(a, b),
        bytes_lt(b, c),
    ensures
        bytes_lt(a, c),
    decreases a.len(),
{
    if a.len() > 0 && a[0] == b[0] && b[0] == c[0] {
        lemma_bytes_lt_transitive(a.skip(1), b.skip(1), c.skip(1));
    }
}

pub proof fn lemma_text_lt_total(a: Seq<char>, b: Seq<char>)
    ensures
        a == b || text_lt(a, b) || text_lt(b, a),
        !(text_lt(a, b) && text_lt(b, a)),
        !text_lt(a, a),
{
    reveal(text_lt);
    lemma_bytes_lt_total(encode_utf8(a), encode_utf8(b));
    lemma_utf8_injective(a, b);
}

pub proof fn lemma_text_lt_transitive(a: Seq<char>, b: Seq<char>, c: Seq<char>)
    requires
        text_lt(a, b),
        text_lt(b, c),
    ensures
        text_lt(a, c),
{
    reveal(text_lt);
    lemma_bytes_lt_transitive(encode_utf8(a), encode_utf8(b), encode_utf8(c));
}

/// Whether `left` comes before `right`.
pub fn bytes_before(left: &[u8], right: &[u8]) -> (before: bool)
    ensures
        before == bytes_lt(left@, right@),
{
    let mut i: usize = 0;
    assert(left@.skip(0) =~= left@);
    assert(right@.skip(0) =~= right@);
    while i < left.len() && i < right.len()
        invariant
            0 <= i <= left@.len(),
            i <= right@.len(),
            bytes_lt(left@, right@) == bytes_lt(left@.skip(i as int), right@.skip(i as int)),
        decreases left@.len() - i,
    {
        if left[i] != right[i] {
            assert(left@.skip(i as int)[0] == left@[i as int]);
            assert(right@.skip(i as int)[0] == right@[i as int]);
            return left[i] < right[i];
        }
        proof {
            lemma_bytes_lt_step(left@, right@, i as int);
        }
        i += 1;
    }
    i < right.len()
}

/// Whether `a` comes before `b`.
pub fn text_before(a: &str, b: &str) -> (before: bool)
    ensures
        before == text_lt(a@, b@),
{
    reveal(text_lt);
    bytes_before(a.as_bytes(), b.as_bytes())
}

/// The lowercase hex digit of a nibble.
pub open spec fn hex_digit(n: int) -> char {
    if n < 10 {
        (48 + n) as char
    } else {
        (87 + n) as char
    }
}

/// Two lowercase hex digits per byte.
pub open spec fn hex(bytes: Seq<u8>) -> Seq<char> {
    Seq::new(
        2 * bytes.len(),
        |i: int|
            if i % 2 == 0 {
                hex_digit(bytes[i / 2] as int / 16)
            } else {
                hex_digit(bytes[i / 2] as int % 16)
            },
    )
}

/// Whether every character is a lowercase hex digit.
pub open spec fn is_hex(text: Seq<char>) -> bool {
    forall|i: int|
        0 <= i < text.len() ==> '0' <= (#[trigger] text[i]) <= '9' || 'a' <= text[i] <= 'f'
}

fn hex_char(n: u8) -> (c: char)
    requires
        n < 16,
    ensures
        c == hex_digit(n as int),
{
    if n < 10 {
        (48 + n) as char
    } else {
        (87 + n) as char
    }
}

pub fn hex_text(bytes: &[u8]) -> (text: String)
    ensures
        text@ == hex(bytes@),
        is_hex(text@),
{
    let mut text = String::new();
    let mut i: usize = 0;
    while i < bytes.len()
        invariant
            0 <= i <= bytes@.len(),
            text@ == hex(bytes@.take(i as int)),
        decreases bytes@.len() - i,
    {
        let b: u8 = bytes[i];
        let ghost before = text@;
        text.push(hex_char(b / 16));
        text.push(hex_char(b % 16));
        proof {
            let short = bytes@.take(i as int);
            let long = bytes@.take(i as int + 1);
            assert forall|k: int| 0 <= k < 2 * long.len() implies text@[k] == hex(long)[k] by {
                if k < 2 * short.len() {
                    assert(text@[k] == before[k]);
                    assert(short[k / 2] == long[k / 2]);
                }
            }
            assert(text@ =~= hex(long));
        }
        i += 1;
    }
    assert(bytes@.take(i as int) =~= bytes@);
    text
}

/// The characters of a text.
pub fn chars_of(text: &str) -> (out: Vec<char>)
    ensures
        out@ == text@,
{
    let mut out: Vec<char> = Vec::new();
    for c in it: text.chars()
        invariant
            out@ == text@.take(it.index() as int),
            it.seq() == text@,
    {
        out.push(c);
        assert(out@ =~= text@.take(it.index() as int + 1));
    }
    assert(text@.take(text@.len() as int) =~= text@);
    out
}

/// The text made of some characters.
pub fn text_of(chars: &[char]) -> (out: String)
    ensures
        out@ == chars@,
{
    let mut out = String::new();
    let mut i: usize = 0;
    while i < chars.len()
        invariant
            0 <= i <= chars@.len(),
            out@ == chars@.take(i as int),
        decreases chars@.len() - i,
    {
        out.push(chars[i]);
        assert(out@ =~= chars@.take(i as int + 1));
        i += 1;
    }
    assert(chars@.take(i as int) =~= chars@);
    out
}

/// Unicode `White_Space`, the property `char::is_whitespace` tests.
pub open spec fn is_white(c: char) -> bool {
    ||| 0x9 <= c as u32 <= 0xD
    ||| c as u32 == 0x20
    ||| c as u32 == 0x85
    ||| c as u32 == 0xA0
    ||| c as u32 == 0x1680
    ||| 0x2000 <= c as u32 <= 0x200A
    ||| c as u32 == 0x2028
    ||| c as u32 == 0x2029
    ||| c as u32 == 0x202F
    ||| c as u32 == 0x205F
    ||| c as u32 == 0x3000
}

/// A text without the white space at its ends.
pub open spec fn trimmed(text: Seq<char>) -> Seq<char>
    decreases text.len(),
{
    if text.len() == 0 {
        text
    } else if is_white(text[0]) {
        trimmed(text.skip(1))
    } else if is_white(text.last()) {
        trimmed(text.drop_last())
    } else {
        text
    }
}

fn white(c: char) -> (out: bool)
    ensures
        out == is_white(c),
{
    let n: u32 = c as u32;
    (0x9 <= n && n <= 0xD) || n == 0x20 || n == 0x85 || n == 0xA0 || n == 0x1680 || (0x2000 <= n
        && n <= 0x200A) || n == 0x2028 || n == 0x2029 || n == 0x202F || n == 0x205F || n == 0x3000
}

/// `text` without the white space at its ends.
pub fn trim_chars<'a>(text: &'a [char]) -> (out: &'a [char])
    ensures
        out@ == trimmed(text@),
{
    let mut lo: usize = 0;
    let mut hi: usize = text.len();
    assert(text@.subrange(0, hi as int) =~= text@);
    while lo < hi && white(text[lo])
        invariant
            0 <= lo <= hi <= text@.len(),
            trimmed(text@.subrange(lo as int, hi as int)) == trimmed(text@),
        decreases hi - lo,
    {
        assert(text@.subrange(lo as int, hi as int).skip(1) =~= text@.subrange(
            lo as int + 1,
            hi as int,
        ));
        lo += 1;
    }
    while lo < hi && white(text[hi - 1])
        invariant
            0 <= lo <= hi <= text@.len(),
            lo < hi ==> !is_white(text@[lo as int]),
            trimmed(text@.subrange(lo as int, hi as int)) == trimmed(text@),
        decreases hi - lo,
    {
        let ghost now = text@.subrange(lo as int, hi as int);
        assert(now.drop_last() =~= text@.subrange(lo as int, hi - 1));
        assert(now[0] == text@[lo as int]);
        assert(now.last() == text@[hi - 1]);
        hi -= 1;
    }
    let ghost now = text@.subrange(lo as int, hi as int);
    assert(lo < hi ==> now[0] == text@[lo as int] && now.last() == text@[hi - 1]);
    vstd::slice::slice_subrange(text, lo, hi)
}

/// Where `c` first stands in `text`.
pub open spec fn first_at(text: Seq<char>, c: char) -> Option<int>
    decreases text.len(),
{
    if text.len() == 0 {
        None
    } else if text[0] == c {
        Some(0)
    } else {
        match first_at(text.skip(1), c) {
            None => None,
            Some(i) => Some(i + 1),
        }
    }
}

pub proof fn lemma_first_at(text: Seq<char>, c: char, n: int)
    requires
        0 <= n <= text.len(),
        forall|i: int| 0 <= i < n ==> #[trigger] text[i] != c,
        n < text.len() ==> text[n] == c,
    ensures
        first_at(text, c) == (if n < text.len() {
            Some(n)
        } else {
            None
        }),
    decreases text.len(),
{
    if n > 0 {
        let tail = text.skip(1);
        assert(text[0] != c);
        assert forall|i: int| 0 <= i < n - 1 implies #[trigger] tail[i] != c by {
            assert(tail[i] == text[i + 1]);
        }
        lemma_first_at(tail, c, n - 1);
    }
}

/// Where `c` first stands in `text`.
pub fn find_char(text: &[char], c: char) -> (at: Option<usize>)
    ensures
        match first_at(text@, c) {
            None => at is None,
            Some(i) => at is Some && at->Some_0 == i && 0 <= i < text@.len(),
        },
{
    let mut i: usize = 0;
    while i < text.len()
        invariant
            0 <= i <= text@.len(),
            forall|j: int| 0 <= j < i ==> #[trigger] text@[j] != c,
        decreases text@.len() - i,
    {
        if text[i] == c {
            proof {
                lemma_first_at(text@, c, i as int);
            }
            return Some(i);
        }
        i += 1;
    }
    proof {
        lemma_first_at(text@, c, i as int);
    }
    None
}

/// An ASCII letter in lower case; any other character as it is.
pub open spec fn lower_char(c: char) -> char {
    if 'A' <= c <= 'Z' {
        (c as u32 + 32) as char
    } else {
        c
    }
}

/// A text with its ASCII letters in lower case.
pub open spec fn lower(text: Seq<char>) -> Seq<char> {
    Seq::new(text.len(), |i: int| lower_char(text[i]))
}

/// `text` with its ASCII letters in lower case.
pub fn lower_text(text: &[char]) -> (out: String)
    ensures
        out@ == lower(text@),
{
    let mut out = String::new();
    let mut i: usize = 0;
    while i < text.len()
        invariant
            0 <= i <= text@.len(),
            out@ == lower(text@).take(i as int),
        decreases text@.len() - i,
    {
        let c: char = text[i];
        if 'A' <= c && c <= 'Z' {
            let b: u8 = c as u8;
            out.push((b + 32) as char);
        } else {
            out.push(c);
        }
        assert(out@ =~= lower(text@).take(i as int + 1));
        i += 1;
    }
    assert(lower(text@).take(i as int) =~= lower(text@));
    out
}

/// A text in quotes, with what does not print in it escaped.
pub uninterp spec fn quoted(text: Seq<char>) -> Seq<char>;

/// `Debug` for `str`: the quoted form of a text is a function of the text.
#[verifier::external_body]
pub(crate) fn quoted_text(text: &str) -> (out: String)
    ensures
        out@ == quoted(text@),
{
    format!("{text:?}")
}

/// Whether a text has no characters.
pub fn is_blank(text: &str) -> (blank: bool)
    ensures
        blank == (text@.len() == 0),
{
    proof {
        encode_utf8_decode_utf8(text@);
        encode_utf8_decode_utf8(Seq::empty());
        assert(encode_utf8(Seq::empty()) =~= Seq::<u8>::empty());
        if encode_utf8(text@).len() == 0 {
            assert(encode_utf8(text@) =~= Seq::<u8>::empty());
        }
        if text@.len() == 0 {
            assert(text@ =~= Seq::empty());
        }
    }
    text.is_empty()
}

/// The text an option holds.
pub open spec fn opt_text(text: Option<String>) -> Option<Seq<char>> {
    match text {
        Some(t) => Some(t@),
        None => None,
    }
}

/// The same optional text again.
pub fn copy_opt(text: &Option<String>) -> (out: Option<String>)
    ensures
        opt_text(out) == opt_text(*text),
{
    match text {
        Some(t) => Some(t.clone()),
        None => None,
    }
}

/// Whether a part of a text is what stands between its white ends: everything before
/// and behind it is white space, and it neither starts nor ends with any.
pub open spec fn is_core(text: Seq<char>, from: int, to: int) -> bool {
    &&& 0 <= from <= to <= text.len()
    &&& forall|i: int| 0 <= i < from ==> is_white(#[trigger] text[i])
    &&& forall|i: int| to <= i < text.len() ==> is_white(#[trigger] text[i])
    &&& from < to ==> !is_white(text[from]) && !is_white(text[to - 1])
}

proof fn lemma_core(text: Seq<char>) -> (core: (int, int))
    ensures
        is_core(text, core.0, core.1),
        trimmed(text) == text.subrange(core.0, core.1),
    decreases text.len(),
{
    if text.len() == 0 {
        assert(text.subrange(0, 0) =~= text);
        (0, 0)
    } else if is_white(text[0]) {
        let rest = text.skip(1);
        let (from, to) = lemma_core(rest);
        lemma_core_behind(text, from, to);
        (from + 1, to + 1)
    } else if is_white(text.last()) {
        let rest = text.drop_last();
        let (from, to) = lemma_core(rest);
        lemma_core_before(text, from, to);
        (from, to)
    } else {
        assert(text.subrange(0, text.len() as int) =~= text);
        (0, text.len() as int)
    }
}

proof fn lemma_core_behind(text: Seq<char>, from: int, to: int)
    requires
        text.len() > 0,
        is_white(text[0]),
        is_core(text.skip(1), from, to),
    ensures
        is_core(text, from + 1, to + 1),
        text.skip(1).subrange(from, to) == text.subrange(from + 1, to + 1),
{
    let rest = text.skip(1);
    assert(rest.subrange(from, to) =~= text.subrange(from + 1, to + 1));
    assert forall|i: int| 0 <= i < from + 1 implies is_white(#[trigger] text[i]) by {
        if i > 0 {
            assert(is_white(rest[i - 1]));
        }
    }
    assert forall|i: int| to + 1 <= i < text.len() implies is_white(#[trigger] text[i]) by {
        assert(is_white(rest[i - 1]));
    }
    if from < to {
        assert(rest[from] == text[from + 1] && rest[to - 1] == text[to]);
    }
}

proof fn lemma_core_before(text: Seq<char>, from: int, to: int)
    requires
        text.len() > 0,
        is_white(text.last()),
        is_core(text.drop_last(), from, to),
    ensures
        is_core(text, from, to),
        text.drop_last().subrange(from, to) == text.subrange(from, to),
{
    let rest = text.drop_last();
    assert(rest.subrange(from, to) =~= text.subrange(from, to));
    assert forall|i: int| 0 <= i < from implies is_white(#[trigger] text[i]) by {
        assert(is_white(rest[i]));
    }
    assert forall|i: int| to <= i < text.len() implies is_white(#[trigger] text[i]) by {
        if i < rest.len() {
            assert(is_white(rest[i]));
        }
    }
}

/// Trimming takes the white space off both ends, all of it and nothing else.
pub proof fn law_trimming_takes_the_ends(text: Seq<char>)
    ensures
        exists|from: int, to: int| #[trigger]
            is_core(text, from, to) && trimmed(text) == text.subrange(from, to),
{
    let (from, to) = lemma_core(text);
    assert(is_core(text, from, to));
}

/// A text is trimmed to nothing exactly where it is white space throughout.
pub proof fn law_only_white_space_trims_to_nothing(text: Seq<char>)
    ensures
        trimmed(text).len() == 0 <==> (forall|i: int|
            0 <= i < text.len() ==> is_white(#[trigger] text[i])),
{
    let (from, to) = lemma_core(text);
    if from < to {
        assert(!is_white(text[from]));
    } else {
        assert forall|i: int| 0 <= i < text.len() implies is_white(#[trigger] text[i]) by {}
    }
}

/// Of the ASCII characters, the space and the five controls from tab to carriage
/// return are white space.
pub proof fn law_ascii_white_space(c: char)
    requires
        (c as u32) < 128,
    ensures
        is_white(c) <==> c == ' ' || '\t' <= c <= '\r',
{
}

/// Bytes in hex are two digits each, the upper half first.
pub proof fn law_hex_is_two_digits_a_byte(bytes: Seq<u8>, i: int)
    requires
        0 <= i < bytes.len(),
    ensures
        hex(bytes).len() == 2 * bytes.len(),
        hex(bytes)[2 * i] == "0123456789abcdef"@[bytes[i] as int / 16],
        hex(bytes)[2 * i + 1] == "0123456789abcdef"@[bytes[i] as int % 16],
{
    reveal_strlit("0123456789abcdef");
}

/// Lower case turns each of the letters from A to Z into its small one, and leaves
/// everything else.
pub proof fn law_lower_case_is_letter_by_letter(text: Seq<char>, i: int)
    requires
        0 <= i < text.len(),
    ensures
        lower(text).len() == text.len(),
        'A' <= text[i] <= 'Z' ==> lower(text)[i] as int - 'a' as int == text[i] as int - 'A' as int,
        !('A' <= text[i] <= 'Z') ==> lower(text)[i] == text[i],
{
}

/// Of two byte strings the lesser is the one that is less where they first differ,
/// or a proper start of the other.
pub proof fn law_bytes_are_ordered_by_the_first_difference(a: Seq<u8>, b: Seq<u8>)
    ensures
        bytes_lt(a, b) <==> exists|n: int|
            {
                &&& 0 <= n <= a.len()
                &&& n < b.len()
                &&& #[trigger] a.take(n) == b.take(n)
                &&& n == a.len() || a[n] < b[n]
            },
    decreases a.len(),
{
    if b.len() > 0 && a.len() > 0 && a[0] == b[0] {
        let p = a.skip(1);
        let q = b.skip(1);
        law_bytes_are_ordered_by_the_first_difference(p, q);
        if bytes_lt(p, q) {
            let n = choose|n: int|
                {
                    &&& 0 <= n <= p.len()
                    &&& n < q.len()
                    &&& #[trigger] p.take(n) == q.take(n)
                    &&& n == p.len() || p[n] < q[n]
                };
            assert(a.take(n + 1) =~= seq![a[0]] + p.take(n));
            assert(b.take(n + 1) =~= seq![b[0]] + q.take(n));
        }
        if exists|n: int|
            {
                &&& 0 <= n <= a.len()
                &&& n < b.len()
                &&& #[trigger] a.take(n) == b.take(n)
                &&& n == a.len() || a[n] < b[n]
            } {
            let n = choose|n: int|
                {
                    &&& 0 <= n <= a.len()
                    &&& n < b.len()
                    &&& #[trigger] a.take(n) == b.take(n)
                    &&& n == a.len() || a[n] < b[n]
                };
            assert(n > 0);
            assert(p.take(n - 1) =~= a.take(n).skip(1));
            assert(q.take(n - 1) =~= b.take(n).skip(1));
        }
    } else if b.len() > 0 && bytes_lt(a, b) {
        assert(a.take(0) =~= b.take(0));
    } else if b.len() > 0 {
        assert forall|n: int|
            0 <= n <= a.len() && n < b.len() && #[trigger] a.take(n) == b.take(n) implies !(n
            == a.len() || a[n] < b[n]) by {
            if n > 0 {
                assert(a.take(n)[0] == b.take(n)[0]);
            }
        }
    }
}

} // verus!
