//! Unpadded base64 over a bit field. Reading stops at the first character that
//! is no symbol.
use vstd::prelude::*;

verus! {

/// The symbol of a six-bit value.
pub open spec fn symbol(v: int) -> char {
    if v < 26 {
        (65 + v) as char
    } else if v < 52 {
        (97 + v - 26) as char
    } else if v < 62 {
        (48 + v - 52) as char
    } else if v == 62 {
        '+'
    } else {
        '/'
    }
}

/// The six-bit value of a symbol.
pub open spec fn symbol_value(c: char) -> Option<int> {
    if 'A' <= c <= 'Z' {
        Some(c as int - 65)
    } else if 'a' <= c <= 'z' {
        Some(c as int - 97 + 26)
    } else if '0' <= c <= '9' {
        Some(c as int - 48 + 52)
    } else if c == '+' {
        Some(62)
    } else if c == '/' {
        Some(63)
    } else {
        None
    }
}

/// The byte at `i`, or zero behind the end.
pub open spec fn byte_or_zero(bytes: Seq<u8>, i: int) -> int {
    if i < bytes.len() {
        bytes[i] as int
    } else {
        0
    }
}

/// The `j`-th six bits of `bytes`, most significant first.
pub open spec fn sextet(bytes: Seq<u8>, j: int) -> int {
    let at = 3 * (j / 4);
    let b0 = byte_or_zero(bytes, at);
    let b1 = byte_or_zero(bytes, at + 1);
    let b2 = byte_or_zero(bytes, at + 2);
    if j % 4 == 0 {
        b0 / 4
    } else if j % 4 == 1 {
        (b0 % 4) * 16 + b1 / 16
    } else if j % 4 == 2 {
        (b1 % 16) * 4 + b2 / 64
    } else {
        b2 % 64
    }
}

/// How many symbols `n` bytes take.
pub open spec fn symbols_for(n: int) -> int {
    4 * (n / 3) + (if n % 3 == 0 {
        0
    } else {
        n % 3 + 1
    })
}

pub open spec fn base64(bytes: Seq<u8>) -> Seq<char> {
    Seq::new(symbols_for(bytes.len() as int) as nat, |j: int| symbol(sextet(bytes, j)))
}

/// How many of the leading characters are symbols.
pub open spec fn symbols_in(text: Seq<char>) -> int
    decreases text.len(),
{
    if text.len() == 0 || symbol_value(text[0]) is None {
        0
    } else {
        1 + symbols_in(text.skip(1))
    }
}

pub open spec fn sextet_at(text: Seq<char>, j: int) -> int {
    symbol_value(text[j])->Some_0
}

/// The `k`-th byte that symbols spell.
pub open spec fn byte_at(text: Seq<char>, k: int) -> u8 {
    let at = 4 * (k / 3);
    if k % 3 == 0 {
        (sextet_at(text, at) * 4 + sextet_at(text, at + 1) / 16) as u8
    } else if k % 3 == 1 {
        ((sextet_at(text, at + 1) % 16) * 16 + sextet_at(text, at + 2) / 4) as u8
    } else {
        ((sextet_at(text, at + 2) % 4) * 64 + sextet_at(text, at + 3)) as u8
    }
}

/// The whole bytes that the leading symbols of a text spell.
pub open spec fn bytes_from(text: Seq<char>) -> Seq<u8> {
    Seq::new((6 * symbols_in(text) / 8) as nat, |k: int| byte_at(text, k))
}

fn symbol_of(v: u8) -> (c: char)
    requires
        v < 64,
    ensures
        c == symbol(v as int),
{
    if v < 26 {
        (65 + v) as char
    } else if v < 52 {
        (97 + (v - 26)) as char
    } else if v < 62 {
        (48 + (v - 52)) as char
    } else if v == 62 {
        '+'
    } else {
        '/'
    }
}

fn value_of(c: char) -> (v: Option<u8>)
    ensures
        match symbol_value(c) {
            None => v is None,
            Some(x) => v is Some && v->Some_0 == x && 0 <= x < 64,
        },
{
    if 'A' <= c && c <= 'Z' {
        Some((c as u32 - 65) as u8)
    } else if 'a' <= c && c <= 'z' {
        Some((c as u32 - 97 + 26) as u8)
    } else if '0' <= c && c <= '9' {
        Some((c as u32 - 48 + 52) as u8)
    } else if c == '+' {
        Some(62)
    } else if c == '/' {
        Some(63)
    } else {
        None
    }
}

/// Encodes a bit field.
pub fn to_base64(bytes: &[u8]) -> (out: Vec<char>)
    ensures
        out@ == base64(bytes@),
{
    let n: usize = bytes.len();
    let mut out: Vec<char> = Vec::new();
    let mut at: usize = 0;
    while at < n
        invariant
            at <= n == bytes@.len(),
            at < n ==> at % 3 == 0,
            out@.len() == symbols_for(at as int),
            forall|i: int| 0 <= i < out@.len() ==> #[trigger] out@[i] == symbol(sextet(bytes@, i)),
        decreases n - at,
    {
        let left: usize = n - at;
        let b0: u8 = bytes[at];
        let b1: u8 = if left > 1 {
            bytes[at + 1]
        } else {
            0
        };
        let b2: u8 = if left > 2 {
            bytes[at + 2]
        } else {
            0
        };
        let ghost j = out@.len() as int;
        assert(j == 4 * (at as int / 3));
        out.push(symbol_of(b0 / 4));
        out.push(symbol_of((b0 % 4) * 16 + b1 / 16));
        if left > 1 {
            out.push(symbol_of((b1 % 16) * 4 + b2 / 64));
        }
        if left > 2 {
            out.push(symbol_of(b2 % 64));
        }
        at = if left > 3 {
            at + 3
        } else {
            n
        };
    }
    assert(out@ =~= base64(bytes@));
    out
}

proof fn lemma_symbols_in(text: Seq<char>, n: int)
    requires
        0 <= n <= text.len(),
        forall|i: int| 0 <= i < n ==> symbol_value(#[trigger] text[i]) is Some,
        n < text.len() ==> symbol_value(text[n]) is None,
    ensures
        symbols_in(text) == n,
    decreases text.len(),
{
    if n > 0 {
        assert(symbol_value(text[0]) is Some);
        let tail = text.skip(1);
        assert forall|i: int| 0 <= i < n - 1 implies symbol_value(#[trigger] tail[i]) is Some by {
            assert(tail[i] == text[i + 1]);
        }
        if n < text.len() {
            assert(tail[n - 1] == text[n]);
        }
        lemma_symbols_in(tail, n - 1);
    }
}

/// Decodes what [`to_base64`] wrote, as far as the symbols go.
pub fn from_base64(text: &[char]) -> (out: Vec<u8>)
    ensures
        out@ == bytes_from(text@),
{
    let mut values: Vec<u8> = Vec::new();
    let mut i: usize = 0;
    let mut more: bool = true;
    while more && i < text.len()
        invariant
            0 <= i <= text@.len(),
            values@.len() == i,
            forall|j: int|
                0 <= j < i ==> symbol_value(#[trigger] text@[j]) == Some(values@[j] as int)
                    && values@[j] < 64,
            !more ==> i < text@.len() && symbol_value(text@[i as int]) is None,
        decreases text@.len() - i + (if more {
            1int
        } else {
            0
        }),
    {
        match value_of(text[i]) {
            Some(v) => {
                values.push(v);
                i += 1;
            },
            None => {
                more = false;
            },
        }
    }
    proof {
        lemma_symbols_in(text@, i as int);
    }
    let count: usize = i / 4 * 3 + (i % 4) * 6 / 8;
    assert(count == 6 * i / 8);
    let mut out: Vec<u8> = Vec::new();
    let mut k: usize = 0;
    while k < count
        invariant
            0 <= k <= count,
            i <= text@.len(),
            values@.len() == i,
            count == 6 * i / 8,
            forall|j: int|
                0 <= j < i ==> symbol_value(#[trigger] text@[j]) == Some(values@[j] as int)
                    && values@[j] < 64,
            out@.len() == k,
            forall|j: int| 0 <= j < k ==> #[trigger] out@[j] == byte_at(text@, j),
        decreases count - k,
    {
        let at: usize = 4 * (k / 3);
        let r: usize = k % 3;
        assert(at + r + 1 < i);
        let b: u8 = if r == 0 {
            let (p, q): (u8, u8) = (values[at], values[at + 1]);
            assert(symbol_value(text@[at as int]) == Some(p as int));
            assert(symbol_value(text@[at + 1]) == Some(q as int));
            p * 4 + q / 16
        } else if r == 1 {
            let (p, q): (u8, u8) = (values[at + 1], values[at + 2]);
            assert(symbol_value(text@[at + 1]) == Some(p as int));
            assert(symbol_value(text@[at + 2]) == Some(q as int));
            (p % 16) * 16 + q / 4
        } else {
            let (p, q): (u8, u8) = (values[at + 2], values[at + 3]);
            assert(symbol_value(text@[at + 2]) == Some(p as int));
            assert(symbol_value(text@[at + 3]) == Some(q as int));
            (p % 4) * 64 + q
        };
        out.push(b);
        k += 1;
    }
    assert(out@ =~= bytes_from(text@));
    out
}

proof fn lemma_sextet_range(bytes: Seq<u8>, j: int)
    requires
        j >= 0,
    ensures
        0 <= sextet(bytes, j) < 64,
        symbol_value(symbol(sextet(bytes, j))) == Some(sextet(bytes, j)),
{
}

proof fn lemma_byte_back(bytes: Seq<u8>, k: int)
    requires
        0 <= k < bytes.len(),
    ensures
        byte_at(base64(bytes), k) == bytes[k],
        4 * (k / 3) + k % 3 + 1 < symbols_for(bytes.len() as int),
{
    let text = base64(bytes);
    let q = k / 3;
    let r = k % 3;
    let at = 4 * q;
    assert(at + r + 1 < symbols_for(bytes.len() as int));
    lemma_sextet_range(bytes, at + r);
    lemma_sextet_range(bytes, at + r + 1);
    let x = sextet(bytes, at + r);
    let y = sextet(bytes, at + r + 1);
    assert(sextet_at(text, at + r) == x && sextet_at(text, at + r + 1) == y);
    assert((at + r) / 4 == q && (at + r) % 4 == r);
    assert((at + r + 1) / 4 == q && (at + r + 1) % 4 == r + 1);
    let b = bytes[k] as int;
    if r == 0 {
        assert(x == b / 4);
        assert(y / 16 == b % 4);
    } else if r == 1 {
        assert(x % 16 == b / 16);
        assert(y / 4 == b % 16);
    } else {
        assert(x % 4 == b / 64);
        assert(y == b % 64);
    }
}

/// A bit field reads back as what was encoded.
pub proof fn law_base64_round_trip(bytes: Seq<u8>)
    ensures
        bytes_from(base64(bytes)) == bytes,
{
    let text = base64(bytes);
    let n = bytes.len() as int;
    let m = text.len() as int;
    assert forall|i: int| 0 <= i < m implies symbol_value(#[trigger] text[i]) is Some by {
        lemma_sextet_range(bytes, i);
    }
    lemma_symbols_in(text, m);
    assert(6 * m / 8 == n);
    assert forall|k: int| 0 <= k < n implies #[trigger] bytes_from(text)[k] == bytes[k] by {
        lemma_byte_back(bytes, k);
    }
    assert(bytes_from(text) =~= bytes);
}

/// The symbols are the capital letters, the small ones, the digits, plus and slash,
/// in that order, and each stands for its place.
pub proof fn law_symbols_in_their_order(v: int)
    requires
        0 <= v < 64,
    ensures
        symbol(v)
            == "ABCDEFGHIJKLMNOPQRSTUVWXYZabcdefghijklmnopqrstuvwxyz0123456789+/"@[v],
        symbol_value(symbol(v)) == Some(v),
{
    reveal_strlit("ABCDEFGHIJKLMNOPQRSTUVWXYZabcdefghijklmnopqrstuvwxyz0123456789+/");
}

/// Three bytes are four symbols, which spell the same number.
pub proof fn law_three_bytes_are_four_symbols(bytes: Seq<u8>, k: int)
    requires
        0 <= k,
        3 * k + 2 < bytes.len(),
    ensures
        4 * k + 3 < base64(bytes).len(),
        bytes[3 * k] * 65_536 + bytes[3 * k + 1] * 256 + bytes[3 * k + 2] == sextet(bytes, 4 * k)
            * 262_144 + sextet(bytes, 4 * k + 1) * 4_096 + sextet(bytes, 4 * k + 2) * 64 + sextet(
            bytes,
            4 * k + 3,
        ),
        forall|j: int| 4 * k <= j < 4 * k + 4 ==> 0 <= #[trigger] sextet(bytes, j) < 64
            && base64(bytes)[j] == symbol(sextet(bytes, j)),
{
}

/// There is no padding: one byte left over is two symbols, two are three.
pub proof fn law_base64_has_no_padding(bytes: Seq<u8>, k: nat)
    ensures
        bytes.len() == 3 * k ==> base64(bytes).len() == 4 * k,
        bytes.len() == 3 * k + 1 ==> base64(bytes).len() == 4 * k + 2,
        bytes.len() == 3 * k + 2 ==> base64(bytes).len() == 4 * k + 3,
{
}

} // verus!
