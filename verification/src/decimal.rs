//! Decimal text of unsigned numbers, and reading it back.
use vstd::prelude::*;

verus! {

pub open spec fn digit(n: int) -> char {
    (48 + n) as char
}

pub open spec fn is_digit(c: char) -> bool {
    '0' <= c <= '9'
}

/// `n` in decimal, without leading zeros.
pub open spec fn dec(n: nat) -> Seq<char>
    decreases n,
{
    if n < 10 {
        seq![digit(n as int)]
    } else {
        dec(n / 10).push(digit((n % 10) as int))
    }
}

/// The number that digits stand for.
pub open spec fn value(digits: Seq<char>) -> nat
    decreases digits.len(),
{
    if digits.len() == 0 {
        0
    } else {
        (value(digits.drop_last()) * 10 + (digits.last() as int - 48)) as nat
    }
}

pub open spec fn all_digits(text: Seq<char>) -> bool {
    forall|i: int| 0 <= i < text.len() ==> is_digit(#[trigger] text[i])
}

/// The digits of a number, behind the one plus sign that may lead them.
pub open spec fn unsigned_body(text: Seq<char>) -> Seq<char> {
    if text.len() > 0 && text[0] == '+' {
        text.skip(1)
    } else {
        text
    }
}

/// The 32-bit number a text spells, the way `u32::from_str` reads it: an
/// optional plus sign, then at least one digit and nothing else.
pub open spec fn number(text: Seq<char>) -> Option<u32> {
    let body = unsigned_body(text);
    if body.len() > 0 && all_digits(body) && value(body) <= u32::MAX {
        Some(value(body) as u32)
    } else {
        None
    }
}

pub proof fn lemma_dec(n: nat)
    ensures
        dec(n).len() > 0,
        all_digits(dec(n)),
        value(dec(n)) == n,
    decreases n,
{
    if n < 10 {
        let s = dec(n);
        assert(s.drop_last() =~= Seq::empty());
        assert(value(s.drop_last()) == 0);
        assert(s.last() == digit(n as int));
    } else {
        lemma_dec(n / 10);
        let s = dec(n);
        assert(s.drop_last() =~= dec(n / 10));
        assert(s.last() == digit((n % 10) as int));
        assert forall|i: int| 0 <= i < s.len() implies is_digit(#[trigger] s[i]) by {
            if i < s.len() - 1 {
                assert(s[i] == dec(n / 10)[i]);
            }
        }
    }
}

/// The decimal text of a number reads back as that number.
pub proof fn law_decimal_round_trip(n: u32)
    ensures
        number(dec(n as nat)) == Some(n),
{
    lemma_dec(n as nat);
    assert(is_digit(dec(n as nat)[0]));
}

/// Appends `n` in decimal.
pub fn push_dec(out: &mut Vec<char>, n: u64)
    ensures
        final(out)@ == old(out)@ + dec(n as nat),
    decreases n,
{
    let ghost start = out@;
    if n >= 10 {
        push_dec(out, n / 10);
        out.push((48 + (n % 10) as u8) as char);
        assert(out@ =~= start + dec(n as nat));
    } else {
        out.push((48 + n as u8) as char);
        assert(out@ =~= start + dec(n as nat));
    }
}

proof fn lemma_value_prefix(body: Seq<char>, i: int)
    requires
        0 <= i <= body.len(),
        all_digits(body),
    ensures
        value(body.take(i)) <= value(body),
    decreases body.len() - i,
{
    if i < body.len() {
        lemma_value_prefix(body, i + 1);
        assert(body.take(i + 1).drop_last() =~= body.take(i));
        assert(is_digit(body[i]));
    } else {
        assert(body.take(i) =~= body);
    }
}

/// Reads a number.
pub fn read_number(text: &[char]) -> (out: Option<u32>)
    ensures
        out == number(text@),
{
    let start: usize = if text.len() > 0 && text[0] == '+' {
        1
    } else {
        0
    };
    let ghost body = unsigned_body(text@);
    assert(body =~= text@.skip(start as int));
    if text.len() == start {
        return None;
    }
    let mut total: u64 = 0;
    let mut i: usize = start;
    while i < text.len()
        invariant
            start <= i <= text@.len(),
            body == text@.skip(start as int),
            body == unsigned_body(text@),
            total <= u32::MAX,
            total == value(body.take(i - start)),
            forall|j: int| 0 <= j < i - start ==> is_digit(#[trigger] body[j]),
        decreases text@.len() - i,
    {
        let c = text[i];
        assert(c == body[i - start]);
        if c < '0' || c > '9' {
            assert(!is_digit(body[i - start]));
            return None;
        }
        proof {
            assert(body.take(i - start + 1).drop_last() =~= body.take(i - start));
            assert(body.take(i - start + 1).last() == c);
        }
        total = total * 10 + (c as u64 - 48);
        if total > u32::MAX as u64 {
            proof {
                if all_digits(body) {
                    lemma_value_prefix(body, i - start + 1);
                }
            }
            return None;
        }
        i += 1;
    }
    assert(body.take(i - start) =~= body);
    Some(total as u32)
}

/// A number is written with the digits of its tenth part before its last digit, and
/// a number below ten as that digit.
pub proof fn law_a_number_is_written_digit_by_digit(n: nat)
    ensures
        n < 10 ==> dec(n) == seq!["0123456789"@[n as int]],
        n >= 10 ==> dec(n) == dec(n / 10) + dec(n % 10),
{
    reveal_strlit("0123456789");
    if n >= 10 {
        assert(dec(n) =~= dec(n / 10) + dec(n % 10));
    }
}

/// A number is read from one or more digits, with a plus sign before them or
/// without, as long as it fits; any other text is none.
pub proof fn law_a_number_is_read_from_its_digits(text: Seq<char>)
    ensures
        text.len() == 0 ==> number(text) is None,
        (forall|i: int| 0 <= i < text.len() ==> '0' <= #[trigger] text[i] <= '9') && text.len() > 0
            ==> number(text) == number(seq!['+'] + text) && (value(text) <= 4_294_967_295
            ==> number(text) == Some(value(text) as u32)) && (value(text) > 4_294_967_295
            ==> number(text) is None),
        (exists|i: int| 0 < i < text.len() && !('0' <= #[trigger] text[i] <= '9')) ==> number(
            text,
        ) is None,
        number(seq!['+']) is None,
{
    assert((seq!['+'] + text).skip(1) =~= text);
    if exists|i: int| 0 < i < text.len() && !('0' <= #[trigger] text[i] <= '9') {
        let i = choose|i: int| 0 < i < text.len() && !('0' <= #[trigger] text[i] <= '9');
        let body = unsigned_body(text);
        if text[0] == '+' {
            assert(body[i - 1] == text[i]);
        } else {
            assert(body[i] == text[i]);
        }
    }
}

} // verus!
