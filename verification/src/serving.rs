//! Which slots of a share a peer can serve, small enough for its card.
//!
//! A complete peer says `*`. A partial one lists sorted runs, `0-12,15,40-99`.
//! Where the runs do not fit, one bit per slot does, behind `~`. Where neither
//! fits nothing is said: a cut list would be a different claim, not a smaller
//! one.
use crate::base64::{base64, bytes_from, from_base64, law_base64_round_trip, to_base64};
use crate::decimal::{
    dec, is_digit, law_decimal_round_trip, lemma_dec, number, push_dec, read_number,
};
use crate::text::{
    chars_of, find_char, first_at, is_white, lemma_first_at, text_of, trim_chars, trimmed,
};
use vstd::prelude::*;
use vstd::slice::slice_subrange;

verus! {

/// Longest field that is published.
pub const MAX_SERVING_CHARS: usize = 512;

/// The marker for "every slot".
pub const SERVING_ALL: &'static str = "*";

/// The mark in front of a bitmap.
pub const SERVING_BITMAP: char = '~';

/// The largest tree one bit per slot can describe in a field.
pub const MAX_BITMAP_SLOTS: usize = (MAX_SERVING_CHARS - 1) / 4 * 3 * 8;

/// `x` put into a strictly increasing sequence, unless it is there.
pub open spec fn inserted(s: Seq<u32>, x: u32) -> Seq<u32>
    decreases s.len(),
{
    if s.len() == 0 {
        seq![x]
    } else if s.last() < x {
        s.push(x)
    } else if s.last() == x {
        s
    } else {
        inserted(s.drop_last(), x).push(s.last())
    }
}

/// The slots, each once, in increasing order.
pub open spec fn ascending(slots: Seq<u32>) -> Seq<u32>
    decreases slots.len(),
{
    if slots.len() == 0 {
        Seq::empty()
    } else {
        inserted(ascending(slots.drop_last()), slots.last())
    }
}

pub open spec fn increasing(s: Seq<u32>) -> bool {
    forall|i: int, j: int| 0 <= i < j < s.len() ==> s[i] < s[j]
}

proof fn lemma_inserted(s: Seq<u32>, x: u32)
    requires
        increasing(s),
    ensures
        increasing(inserted(s, x)),
        forall|y: u32| #[trigger] inserted(s, x).contains(y) == (s.contains(y) || y == x),
        inserted(s, x).len() > 0,
        inserted(s, x).last() == (if s.len() > 0 && s.last() > x {
            s.last()
        } else {
            x
        }),
    decreases s.len(),
{
    let r = inserted(s, x);
    if s.len() == 0 {
        assert(r[0] == x);
    } else if s.last() < x {
        assert(r[s.len() as int] == x);
        assert forall|y: u32| #[trigger] r.contains(y) == (s.contains(y) || y == x) by {
            if s.contains(y) {
                let k = choose|k: int| 0 <= k < s.len() && s[k] == y;
                assert(r[k] == y);
            }
        }
    } else if s.last() == x {
        assert(s[s.len() - 1] == x);
    } else {
        let front = s.drop_last();
        lemma_inserted(front, x);
        let mid = inserted(front, x);
        assert(mid.last() < s.last());
        assert forall|y: u32| #[trigger] r.contains(y) == (s.contains(y) || y == x) by {
            if mid.contains(y) {
                let k = choose|k: int| 0 <= k < mid.len() && mid[k] == y;
                assert(r[k] == y);
            }
            if s.contains(y) {
                let k = choose|k: int| 0 <= k < s.len() && s[k] == y;
                if k < s.len() - 1 {
                    assert(front[k] == y);
                    assert(front.contains(y));
                } else {
                    assert(r[r.len() - 1] == y);
                }
            }
            if r.contains(y) {
                let k = choose|k: int| 0 <= k < r.len() && r[k] == y;
                if k < r.len() - 1 {
                    assert(mid[k] == y);
                    assert(mid.contains(y));
                    if front.contains(y) {
                        let l = choose|l: int| 0 <= l < front.len() && front[l] == y;
                        assert(s[l] == y);
                    }
                } else {
                    assert(s[s.len() - 1] == y);
                }
            }
        }
    }
}

pub proof fn lemma_ascending(slots: Seq<u32>)
    ensures
        increasing(ascending(slots)),
        forall|y: u32| #[trigger] ascending(slots).contains(y) == slots.contains(y),
    decreases slots.len(),
{
    if slots.len() > 0 {
        let front = slots.drop_last();
        lemma_ascending(front);
        lemma_inserted(ascending(front), slots.last());
        assert forall|y: u32| #[trigger] ascending(slots).contains(y) == slots.contains(y) by {
            if front.contains(y) {
                let k = choose|k: int| 0 <= k < front.len() && front[k] == y;
                assert(slots[k] == y);
            }
            if slots.contains(y) {
                let k = choose|k: int| 0 <= k < slots.len() && slots[k] == y;
                if k < slots.len() - 1 {
                    assert(front[k] == y);
                } else {
                    assert(y == slots.last());
                }
            }
            if y == slots.last() {
                assert(slots[slots.len() - 1] == y);
            }
        }
    }
}

/// Two strictly increasing sequences with the same members are the same.
pub proof fn lemma_increasing_unique(a: Seq<u32>, b: Seq<u32>)
    requires
        increasing(a),
        increasing(b),
        forall|y: u32| #[trigger] a.contains(y) == b.contains(y),
    ensures
        a == b,
    decreases a.len(),
{
    if a.len() == 0 {
        if b.len() > 0 {
            assert(b.contains(b[0]));
            assert(a.contains(b[0]));
        }
        assert(a =~= b);
    } else {
        assert(a.contains(a.last()));
        assert(b.contains(a.last()));
        assert(b.contains(b.last()));
        assert(a.contains(b.last()));
        let k = choose|k: int| 0 <= k < b.len() && b[k] == a.last();
        let l = choose|l: int| 0 <= l < a.len() && a[l] == b.last();
        assert(a.last() <= b.last());
        assert(b.last() <= a.last());
        let fa = a.drop_last();
        let fb = b.drop_last();
        assert forall|y: u32| #[trigger] fa.contains(y) == fb.contains(y) by {
            if fa.contains(y) {
                let i = choose|i: int| 0 <= i < fa.len() && fa[i] == y;
                assert(a[i] == y);
                assert(a.contains(y));
                assert(b.contains(y));
                let j = choose|j: int| 0 <= j < b.len() && b[j] == y;
                assert(j < b.len() - 1);
                assert(fb[j] == y);
            }
            if fb.contains(y) {
                let i = choose|i: int| 0 <= i < fb.len() && fb[i] == y;
                assert(b[i] == y);
                assert(b.contains(y));
                assert(a.contains(y));
                let j = choose|j: int| 0 <= j < a.len() && a[j] == y;
                assert(j < a.len() - 1);
                assert(fa[j] == y);
            }
        }
        lemma_increasing_unique(fa, fb);
        assert(a =~= fa.push(a.last()));
        assert(b =~= fb.push(b.last()));
    }
}

proof fn lemma_inserted_at(s: Seq<u32>, x: u32, k: int)
    requires
        0 <= k <= s.len(),
        k > 0 ==> s[k - 1] <= x,
        forall|i: int| k <= i < s.len() ==> #[trigger] s[i] > x,
    ensures
        inserted(s, x) == (if k > 0 && s[k - 1] == x {
            s
        } else {
            s.insert(k, x)
        }),
    decreases s.len(),
{
    if s.len() > 0 && k < s.len() {
        let front = s.drop_last();
        assert(s[s.len() - 1] > x);
        lemma_inserted_at(front, x, k);
        if k > 0 && s[k - 1] == x {
            assert(front.push(s.last()) =~= s);
        } else {
            assert(front.insert(k, x).push(s.last()) =~= s.insert(k, x));
        }
    } else {
        assert(s.push(x) =~= s.insert(s.len() as int, x));
        if s.len() == 0 {
            assert(seq![x] =~= s.insert(0, x));
        }
    }
}

fn insert_slot(s: &mut Vec<u32>, x: u32)
    ensures
        final(s)@ == inserted(old(s)@, x),
{
    let mut k: usize = s.len();
    while k > 0 && s[k - 1] > x
        invariant
            0 <= k <= s@.len(),
            s@ == old(s)@,
            forall|i: int| k <= i < s@.len() ==> #[trigger] s@[i] > x,
        decreases k,
    {
        k -= 1;
    }
    proof {
        lemma_inserted_at(s@, x, k as int);
    }
    if k > 0 && s[k - 1] == x {
        return ;
    }
    s.insert(k, x);
}

fn sort_slots(slots: &[u32]) -> (out: Vec<u32>)
    ensures
        out@ == ascending(slots@),
{
    let mut out: Vec<u32> = Vec::new();
    let mut i: usize = 0;
    while i < slots.len()
        invariant
            0 <= i <= slots@.len(),
            out@ == ascending(slots@.take(i as int)),
        decreases slots@.len() - i,
    {
        assert(slots@.take(i as int + 1).drop_last() =~= slots@.take(i as int));
        insert_slot(&mut out, slots[i]);
        i += 1;
    }
    assert(slots@.take(i as int) =~= slots@);
    out
}

/// The last position of the run of consecutive slots that starts at `i`.
pub open spec fn run_end(s: Seq<u32>, i: int) -> int
    decreases s.len() - i,
{
    if 0 <= i && i + 1 < s.len() && s[i + 1] == s[i] + 1 {
        run_end(s, i + 1)
    } else {
        i
    }
}

/// One run: a slot, or its first and last slot with a dash between.
pub open spec fn run_text(first: u32, last: u32) -> Seq<char> {
    if first == last {
        dec(first as nat)
    } else {
        dec(first as nat) + seq!['-'] + dec(last as nat)
    }
}

/// The runs of `s` from position `i` on, with commas between.
pub open spec fn runs_text(s: Seq<u32>, i: int) -> Seq<char>
    decreases s.len() - i,
    via runs_text_decreases
{
    if i < 0 || i >= s.len() {
        Seq::empty()
    } else {
        let e = run_end(s, i);
        let head = run_text(s[i], s[e]);
        if e + 1 < s.len() {
            head + seq![','] + runs_text(s, e + 1)
        } else {
            head
        }
    }
}

#[via_fn]
proof fn runs_text_decreases(s: Seq<u32>, i: int) {
    lemma_run_end(s, i);
}

proof fn lemma_run_end(s: Seq<u32>, i: int)
    ensures
        run_end(s, i) >= i,
        0 <= i < s.len() ==> run_end(s, i) < s.len(),
        0 <= i < s.len() ==> forall|j: int|
            i <= j <= run_end(s, i) ==> #[trigger] s[j] == s[i] + (j - i),
        0 <= i && run_end(s, i) + 1 < s.len() ==> s[run_end(s, i) + 1] != s[run_end(s, i)] + 1,
    decreases s.len() - i,
{
    if 0 <= i && i + 1 < s.len() && s[i + 1] == s[i] + 1 {
        lemma_run_end(s, i + 1);
        assert forall|j: int| i <= j <= run_end(s, i) implies #[trigger] s[j] == s[i] + (j
            - i) by {
            if j > i {
                assert(s[j] == s[i + 1] + (j - (i + 1)));
            }
        }
    }
}

/// Whether `slot` is set in a bit field.
pub open spec fn bit_set(bits: Seq<u8>, slot: int) -> bool {
    0 <= slot && slot / 8 < bits.len() && bits[slot / 8] & (1u8 << ((slot % 8) as u8)) != 0
}

/// The low `k` bits of byte `b` of the field for `s` in a tree of `total` slots.
pub open spec fn field_byte(s: Seq<u32>, total: int, b: int, k: int) -> u8
    decreases k,
{
    if k <= 0 {
        0
    } else {
        let slot = 8 * b + k - 1;
        let rest = field_byte(s, total, b, k - 1);
        if slot < total && slot <= u32::MAX && s.contains(slot as u32) {
            rest | (1u8 << ((k - 1) as u8))
        } else {
            rest
        }
    }
}

/// One bit per slot of the tree.
pub open spec fn bit_field(s: Seq<u32>, total: int) -> Seq<u8> {
    Seq::new(((total + 7) / 8) as nat, |b: int| field_byte(s, total, b, 8))
}

/// Whether ascending slots are all the slots of a tree, and nothing else.
pub open spec fn is_whole(s: Seq<u32>, total: int) -> bool {
    total > 0 && s.len() == total && forall|i: int| 0 <= i < total ==> #[trigger] s[i] == i
}

/// What a peer that can serve `held` of `total` slots publishes.
pub open spec fn serving_field(held: Seq<u32>, total: int) -> Option<Seq<char>> {
    let s = ascending(held);
    if held.len() == 0 {
        None
    } else if is_whole(s, total) {
        Some(seq!['*'])
    } else if runs_text(s, 0).len() <= MAX_SERVING_CHARS {
        Some(runs_text(s, 0))
    } else if total == 0 || total > MAX_BITMAP_SLOTS {
        None
    } else {
        Some(seq!['~'] + base64(bit_field(s, total)))
    }
}

pub proof fn lemma_bit_or(b: u8, k: u8, j: u8)
    requires
        k < 8,
        j < 8,
    ensures
        ((b | (1u8 << k)) & (1u8 << j) != 0) == (b & (1u8 << j) != 0 || j == k),
{
    assert(((b | (1u8 << k)) & (1u8 << j) != 0) == (b & (1u8 << j) != 0 || j == k)) by (bit_vector)
        requires
            k < 8,
            j < 8,
    ;
}

pub proof fn lemma_bit_zero(j: u8)
    ensures
        0u8 & (1u8 << j) == 0,
{
    assert(0u8 & (1u8 << j) == 0) by (bit_vector);
}

proof fn lemma_field_byte(s: Seq<u32>, total: int, b: int, k: int, j: int)
    requires
        0 <= k <= 8,
        0 <= j < 8,
        b >= 0,
    ensures
        (field_byte(s, total, b, k) & (1u8 << (j as u8)) != 0) == (j < k && 8 * b + j < total && 8
            * b + j <= u32::MAX && s.contains((8 * b + j) as u32)),
    decreases k,
{
    lemma_bit_zero(j as u8);
    if k > 0 {
        lemma_field_byte(s, total, b, k - 1, j);
        lemma_bit_or(field_byte(s, total, b, k - 1), (k - 1) as u8, j as u8);
    }
}

/// The field says exactly the slots below `total` that are held.
pub proof fn lemma_bit_field(s: Seq<u32>, total: int, slot: int)
    requires
        0 <= slot,
        total >= 0,
    ensures
        bit_set(bit_field(s, total), slot) == (slot < total && slot <= u32::MAX && s.contains(
            slot as u32,
        )),
{
    let b = slot / 8;
    let j = slot % 8;
    if b < (total + 7) / 8 {
        lemma_field_byte(s, total, b, 8, j);
    }
}

proof fn lemma_same_byte(a: Seq<u32>, b: Seq<u32>, total: int, at: int, k: int)
    requires
        forall|x: u32| #[trigger] a.contains(x) == b.contains(x),
    ensures
        field_byte(a, total, at, k) == field_byte(b, total, at, k),
    decreases k,
{
    if k > 0 {
        lemma_same_byte(a, b, total, at, k - 1);
        assert(a.contains((8 * at + k - 1) as u32) == b.contains((8 * at + k - 1) as u32));
    }
}

/// Encodes a holding as one bit for each slot, or nothing where the tree has too
/// many slots for that. A slot outside the tree is left out; the order of the
/// slots does not matter.
#[must_use]
pub fn encode_bitmap(held: &[u32], total: usize) -> (out: Option<String>)
    ensures
        match out {
            None => total == 0 || total > MAX_BITMAP_SLOTS,
            Some(text) => 0 < total <= MAX_BITMAP_SLOTS && text@ == seq!['~'] + base64(
                bit_field(held@, total as int),
            ) && text@.len() <= MAX_SERVING_CHARS,
        },
{
    let sorted = sort_slots(held);
    proof {
        lemma_ascending(held@);
        let a = bit_field(sorted@, total as int);
        let b = bit_field(held@, total as int);
        assert forall|i: int| 0 <= i < a.len() implies a[i] == b[i] by {
            lemma_same_byte(sorted@, held@, total as int, i, 8);
        }
        assert(a =~= b);
    }
    sorted_bitmap(&sorted, total)
}

fn sorted_bitmap(sorted: &Vec<u32>, total: usize) -> (out: Option<String>)
    requires
        increasing(sorted@),
    ensures
        match out {
            None => total == 0 || total > MAX_BITMAP_SLOTS,
            Some(text) => 0 < total <= MAX_BITMAP_SLOTS && text@ == seq!['~'] + base64(
                bit_field(sorted@, total as int),
            ) && text@.len() <= MAX_SERVING_CHARS,
        },
{
    if total == 0 || total > MAX_BITMAP_SLOTS {
        return None;
    }
    let n: usize = (total + 7) / 8;
    let mut bits: Vec<u8> = Vec::new();
    let mut at: usize = 0;
    let mut b: usize = 0;
    while b < n
        invariant
            0 <= b <= n,
            n == (total + 7) / 8,
            total <= MAX_BITMAP_SLOTS,
            increasing(sorted@),
            0 <= at <= sorted@.len(),
            forall|i: int| 0 <= i < at ==> #[trigger] sorted@[i] < 8 * b,
            forall|i: int| at <= i < sorted@.len() ==> #[trigger] sorted@[i] >= 8 * b,
            bits@.len() == b,
            forall|i: int|
                0 <= i < b ==> #[trigger] bits@[i] == field_byte(sorted@, total as int, i, 8),
        decreases n - b,
    {
        let mut byte: u8 = 0;
        let mut k: usize = 0;
        while k < 8
            invariant
                0 <= k <= 8,
                b < n,
                n == (total + 7) / 8,
                total <= MAX_BITMAP_SLOTS,
                increasing(sorted@),
                0 <= at <= sorted@.len(),
                forall|i: int| 0 <= i < at ==> #[trigger] sorted@[i] < 8 * b + k,
                forall|i: int| at <= i < sorted@.len() ==> #[trigger] sorted@[i] >= 8 * b + k,
                byte == field_byte(sorted@, total as int, b as int, k as int),
            decreases 8 - k,
        {
            let slot: usize = 8 * b + k;
            if at < sorted.len() && sorted[at] as usize == slot {
                assert(sorted@.contains(slot as u32));
                if slot < total {
                    byte = byte | (1u8 << (k as u8));
                }
                at += 1;
            } else {
                assert(!sorted@.contains(slot as u32)) by {
                    if sorted@.contains(slot as u32) {
                        let i = choose|i: int| 0 <= i < sorted@.len() && sorted@[i] == slot as u32;
                        assert(sorted@[i] == slot);
                        if i >= at {
                            assert(sorted@[at as int] >= slot);
                            if i > at {
                                assert(sorted@[at as int] < sorted@[i]);
                            }
                        }
                    }
                }
                assert forall|i: int| at <= i < sorted@.len() implies #[trigger] sorted@[i]
                    >= slot + 1 by {
                    assert(sorted@[i] >= slot);
                    if sorted@[i] == slot {
                        assert(sorted@.contains(slot as u32));
                    }
                }
            }
            k += 1;
        }
        bits.push(byte);
        b += 1;
    }
    assert(bits@ =~= bit_field(sorted@, total as int));
    let body = to_base64(bits.as_slice());
    let mut chars: Vec<char> = Vec::new();
    chars.push(SERVING_BITMAP);
    let mut i: usize = 0;
    while i < body.len()
        invariant
            0 <= i <= body@.len(),
            chars@ == seq!['~'] + body@.take(i as int),
        decreases body@.len() - i,
    {
        chars.push(body[i]);
        assert(chars@ =~= seq!['~'] + body@.take(i as int + 1));
        i += 1;
    }
    assert(body@.take(i as int) =~= body@);
    Some(text_of(chars.as_slice()))
}

fn push_run(out: &mut Vec<char>, first: u32, last: u32)
    ensures
        final(out)@ == old(out)@ + run_text(first, last),
{
    push_dec(out, first as u64);
    if first != last {
        out.push('-');
        push_dec(out, last as u64);
    }
    assert(out@ =~= old(out)@ + run_text(first, last));
}

/// What is left to write of the runs from position `i` on.
spec fn runs_left(s: Seq<u32>, i: int) -> Seq<char> {
    if i >= s.len() {
        Seq::empty()
    } else if i == 0 {
        runs_text(s, 0)
    } else {
        seq![','] + runs_text(s, i)
    }
}

/// Encodes the slots a peer can serve. `held` need be neither sorted nor unique;
/// `total` is how many slots the tree has. `None` means that no field is
/// published: nothing is held, or the holding fits no field.
#[must_use]
pub fn encode_serving(held: &[u32], total: usize) -> (out: Option<String>)
    ensures
        match serving_field(held@, total as int) {
            None => out is None,
            Some(text) => out is Some && out->Some_0@ == text,
        },
        out matches Some(text) ==> text@.len() <= MAX_SERVING_CHARS,
{
    if held.len() == 0 {
        return None;
    }
    let sorted = sort_slots(held);
    proof {
        lemma_ascending(held@);
    }
    proof {
        if total > 0 && sorted@.len() == total {
            lemma_whole(sorted@, total as int);
        }
    }
    if total > 0 && sorted.len() == total && sorted[total - 1] as usize == total - 1 {
        let mut all = String::new();
        all.push('*');
        assert(all@ =~= seq!['*']);
        return Some(all);
    }
    let mut chars: Vec<char> = Vec::new();
    let ghost s = sorted@;
    let mut i: usize = 0;
    let mut overflowed: bool = false;
    assert(Seq::<char>::empty() + runs_left(s, 0) =~= runs_text(s, 0));
    while i < sorted.len() && !overflowed
        invariant
            0 <= i <= sorted@.len(),
            s == sorted@,
            increasing(s),
            chars@ + runs_left(s, i as int) == runs_text(s, 0),
            (chars@.len() == 0) == (i == 0),
            overflowed == (chars@.len() > MAX_SERVING_CHARS),
        decreases sorted@.len() - i,
    {
        let start: usize = i;
        let mut e: usize = i;
        while e < sorted.len() - 1 && sorted[e + 1] - 1 == sorted[e]
            invariant
                start <= e < sorted@.len(),
                s == sorted@,
                increasing(s),
                run_end(s, start as int) == run_end(s, e as int),
            decreases sorted@.len() - e,
        {
            e += 1;
        }
        let ghost before = chars@;
        if !chars.is_empty() {
            chars.push(',');
        }
        let ghost mid = chars@;
        push_run(&mut chars, sorted[start], sorted[e]);
        proof {
            let head = run_text(s[start as int], s[e as int]);
            assert(run_end(s, start as int) == e);
            lemma_dec(s[start as int] as nat);
            assert(head.len() > 0);
            if e + 1 < s.len() {
                assert(runs_text(s, start as int) == head + seq![','] + runs_text(s, e + 1));
                assert(chars@ + runs_left(s, e + 1) =~= before + runs_left(s, start as int));
            } else {
                assert(runs_text(s, start as int) == head);
                assert(chars@ + runs_left(s, e + 1) =~= before + runs_left(s, start as int));
            }
        }
        i = e + 1;
        if chars.len() > MAX_SERVING_CHARS {
            overflowed = true;
        }
    }
    if !overflowed {
        assert(chars@ + runs_left(s, i as int) =~= chars@);
        return Some(text_of(chars.as_slice()));
    }
    sorted_bitmap(&sorted, total)
}

/// The slots one run names.
pub open spec fn run_slots(run: Seq<char>) -> Set<u32> {
    match first_at(run, '-') {
        Some(i) => match (number(run.take(i)), number(run.skip(i + 1))) {
            (Some(a), Some(b)) => Set::new(|x: u32| a <= x <= b),
            _ => Set::empty(),
        },
        None => match number(run) {
            Some(a) => Set::new(|x: u32| x == a),
            None => Set::empty(),
        },
    }
}

/// The slots a comma-separated list of runs names. A run that cannot be read
/// names none.
pub open spec fn list_slots(text: Seq<char>) -> Set<u32>
    decreases text.len(),
    via list_slots_decreases
{
    match first_at(text, ',') {
        Some(i) => run_slots(trimmed(text.take(i))).union(list_slots(text.skip(i + 1))),
        None => run_slots(trimmed(text)),
    }
}

#[via_fn]
proof fn list_slots_decreases(text: Seq<char>) {
    lemma_first_at_range(text, ',');
}

proof fn lemma_first_at_range(text: Seq<char>, c: char)
    ensures
        first_at(text, c) matches Some(i) ==> 0 <= i < text.len(),
    decreases text.len(),
{
    if text.len() > 0 && text[0] != c {
        lemma_first_at_range(text.skip(1), c);
    }
}

/// The slots a published field names in a tree of `total` slots.
pub open spec fn named_slots(field: Seq<char>, total: int) -> Set<u32> {
    let text = trimmed(field);
    if text == seq!['*'] {
        Set::new(|x: u32| x < total)
    } else if text.len() > 0 && text[0] == '~' {
        Set::new(|x: u32| x < total && bit_set(bytes_from(text.skip(1)), x as int))
    } else {
        list_slots(text)
    }
}

fn bit_of(bits: &Vec<u8>, slot: usize) -> (set: bool)
    ensures
        set == bit_set(bits@, slot as int),
{
    if slot / 8 < bits.len() {
        bits[slot / 8] & (1u8 << ((slot % 8) as u8)) != 0
    } else {
        false
    }
}

fn add_run(held: &mut Vec<u32>, run: &[char])
    requires
        increasing(old(held)@),
    ensures
        increasing(final(held)@),
        forall|x: u32| #[trigger]
            final(held)@.contains(x) == (old(held)@.contains(x) || run_slots(run@).contains(x)),
{
    let end: usize = run.len();
    let (first, last): (u32, u32) = match find_char(run, '-') {
        Some(i) => {
            let left = slice_subrange(run, 0, i);
            let right = slice_subrange(run, i + 1, end);
            assert(left@ =~= run@.take(i as int));
            assert(right@ =~= run@.skip(i as int + 1));
            match (read_number(left), read_number(right)) {
                (Some(a), Some(b)) => (a, b),
                _ => {
                    return ;
                },
            }
        },
        None => match read_number(run) {
            Some(a) => (a, a),
            None => {
                return ;
            },
        },
    };
    if first > last {
        return ;
    }
    let mut x: u32 = first;
    loop
        invariant_except_break
            first <= x <= last,
            increasing(held@),
            forall|y: u32| #[trigger]
                held@.contains(y) == (old(held)@.contains(y) || first <= y < x),
        ensures
            increasing(held@),
            forall|y: u32| #[trigger]
                held@.contains(y) == (old(held)@.contains(y) || first <= y <= last),
        decreases last - x,
    {
        proof {
            lemma_inserted(held@, x);
        }
        insert_slot(held, x);
        if x == last {
            break;
        }
        x += 1;
    }
}

/// Decodes what a peer said it can serve, into increasing slots. `total` bounds
/// what `*` and a bitmap name.
#[verifier::spinoff_prover]
#[must_use]
pub fn decode_serving(encoded: &str, total: usize) -> (out: Vec<u32>)
    ensures
        increasing(out@),
        forall|x: u32| #[trigger]
            out@.contains(x) == named_slots(encoded@, total as int).contains(x),
{
    let chars = chars_of(encoded);
    let text = trim_chars(chars.as_slice());
    proof {
        lemma_trimmed_len(encoded@);
    }
    if text.len() == 1 && text[0] == '*' {
        assert(text@ =~= seq!['*']);
        let mut out: Vec<u32> = Vec::new();
        let mut slot: usize = 0;
        while slot < total && slot <= u32::MAX as usize
            invariant
                0 <= slot <= total,
                slot <= u32::MAX + 1,
                out@.len() == slot,
                forall|i: int| 0 <= i < slot ==> #[trigger] out@[i] == i,
            decreases total - slot,
        {
            out.push(slot as u32);
            slot += 1;
        }
        assert forall|y: u32| #[trigger]
            out@.contains(y) == named_slots(encoded@, total as int).contains(y) by {
            if y < slot {
                assert(out@[y as int] == y);
            }
        }
        return out;
    }
    assert(text@ == seq!['*'] ==> text@.len() == 1 && text@[0] == '*');
    if text.len() > 0 && text[0] == SERVING_BITMAP {
        let body = slice_subrange(text, 1, text.len());
        assert(body@ =~= text@.skip(1));
        let bits = from_base64(body);
        let mut out: Vec<u32> = Vec::new();
        let mut slot: usize = 0;
        while slot < total && slot <= u32::MAX as usize
            invariant
                0 <= slot <= total,
                slot <= u32::MAX + 1,
                increasing(out@),
                out@.len() > 0 ==> out@.last() < slot,
                forall|y: u32| #[trigger]
                    out@.contains(y) == (y < slot && bit_set(bits@, y as int)),
            decreases total - slot,
        {
            if bit_of(&bits, slot) {
                let ghost before = out@;
                out.push(slot as u32);
                proof {
                    assert(out@[before.len() as int] == slot);
                    assert forall|y: u32| #[trigger]
                        out@.contains(y) == (y < slot + 1 && bit_set(bits@, y as int)) by {
                        if before.contains(y) {
                            let k = choose|k: int| 0 <= k < before.len() && before[k] == y;
                            assert(out@[k] == y);
                        }
                        if out@.contains(y) {
                            let k = choose|k: int| 0 <= k < out@.len() && out@[k] == y;
                            if k < before.len() {
                                assert(before[k] == y);
                                assert(before.contains(y));
                            }
                        }
                    }
                    assert forall|i: int, j: int| 0 <= i < j < out@.len() implies out@[i]
                        < out@[j] by {
                        if j == before.len() {
                            assert(out@[i] == before[i]);
                            assert(before[i] <= before.last());
                        }
                    }
                }
            }
            slot += 1;
        }
        return out;
    }
    let mut held: Vec<u32> = Vec::new();
    let mut at: usize = 0;
    assert(text@.skip(0) =~= text@);
    loop
        invariant_except_break
            0 <= at <= text@.len(),
            increasing(held@),
            forall|y: u32|
                list_slots(text@).contains(y) == (#[trigger] held@.contains(y) || list_slots(
                    text@.skip(at as int),
                ).contains(y)),
        invariant
            named_slots(encoded@, total as int) == list_slots(text@),
        ensures
            increasing(held@),
            forall|y: u32| #[trigger] held@.contains(y) == list_slots(text@).contains(y),
        decreases text@.len() - at,
    {
        let rest = slice_subrange(text, at, text.len());
        assert(rest@ =~= text@.skip(at as int));
        let ghost before = held@;
        assert(forall|y: u32|
            list_slots(text@).contains(y) == (#[trigger] before.contains(y) || list_slots(
                rest@,
            ).contains(y)));
        match find_char(rest, ',') {
            Some(i) => {
                let piece = slice_subrange(rest, 0, i);
                assert(piece@ =~= rest@.take(i as int));
                let run = trim_chars(piece);
                add_run(&mut held, run);
                at = at + i + 1;
                let ghost behind = text@.skip(at as int);
                assert(rest@.skip(i as int + 1) =~= behind);
                assert(list_slots(rest@) == run_slots(run@).union(list_slots(behind)));
                assert forall|y: u32|
                    list_slots(text@).contains(y) == (#[trigger] held@.contains(y) || list_slots(
                        behind,
                    ).contains(y)) by {
                    assert(held@.contains(y) == (before.contains(y) || run_slots(run@).contains(
                        y,
                    )));
                    assert(list_slots(text@).contains(y) == (before.contains(y) || list_slots(
                        rest@,
                    ).contains(y)));
                    assert(list_slots(rest@).contains(y) == (run_slots(run@).contains(y)
                        || list_slots(behind).contains(y)));
                }
            },
            None => {
                let run = trim_chars(rest);
                add_run(&mut held, run);
                assert forall|y: u32| #[trigger]
                    held@.contains(y) == list_slots(text@).contains(y) by {
                    assert(held@.contains(y) == (before.contains(y) || run_slots(run@).contains(
                        y,
                    )));
                    assert(list_slots(text@).contains(y) == (before.contains(y) || list_slots(
                        rest@,
                    ).contains(y)));
                }
                break;
            },
        }
    }
    held
}

proof fn lemma_trimmed_len(text: Seq<char>)
    ensures
        trimmed(text).len() <= text.len(),
    decreases text.len(),
{
    if text.len() > 0 {
        if is_white(text[0]) {
            lemma_trimmed_len(text.skip(1));
        } else if is_white(text.last()) {
            lemma_trimmed_len(text.drop_last());
        }
    }
}

proof fn lemma_not_white(c: char)
    requires
        is_digit(c) || crate::base64::symbol_value(c) is Some || c == '~' || c == '*',
    ensures
        !is_white(c),
{
}

proof fn lemma_run_text(a: u32, b: u32)
    requires
        a <= b,
    ensures
        run_text(a, b).len() > 0,
        forall|k: int|
            0 <= k < run_text(a, b).len() ==> is_digit(#[trigger] run_text(a, b)[k]) || run_text(
                a,
                b,
            )[k] == '-',
        is_digit(run_text(a, b)[0]),
        is_digit(run_text(a, b).last()),
        trimmed(run_text(a, b)) == run_text(a, b),
        forall|x: u32| #[trigger] run_slots(run_text(a, b)).contains(x) == (a <= x <= b),
{
    let t = run_text(a, b);
    let left = dec(a as nat);
    let right = dec(b as nat);
    lemma_dec(a as nat);
    lemma_dec(b as nat);
    law_decimal_round_trip(a);
    law_decimal_round_trip(b);
    assert(is_digit(left[0]));
    assert(is_digit(left[left.len() - 1]));
    assert(is_digit(right[right.len() - 1]));
    if a == b {
        assert forall|i: int| 0 <= i < t.len() implies #[trigger] t[i] != '-' by {
            assert(is_digit(left[i]));
        }
        lemma_first_at(t, '-', t.len() as int);
    } else {
        let n = left.len() as int;
        assert(t.take(n) =~= left);
        assert(t.skip(n + 1) =~= right);
        assert(t[n] == '-');
        assert forall|i: int| 0 <= i < n implies #[trigger] t[i] != '-' by {
            assert(t[i] == left[i]);
            assert(is_digit(left[i]));
        }
        lemma_first_at(t, '-', n);
        assert(t[0] == left[0]);
        assert(t.last() == right.last());
        assert forall|k: int| 0 <= k < t.len() implies is_digit(#[trigger] t[k]) || t[k]
            == '-' by {
            if k < n {
                assert(t[k] == left[k]);
            } else if k > n {
                assert(t[k] == right[k - n - 1]);
            }
        }
    }
    lemma_not_white(t[0]);
    lemma_not_white(t.last());
}

/// The slots of `s` from position `i` on.
spec fn tail_contains(s: Seq<u32>, i: int, x: u32) -> bool {
    exists|j: int| i <= j < s.len() && #[trigger] s[j] == x
}

/// The slots of `s` from position `i` to position `e`.
spec fn span_contains(s: Seq<u32>, i: int, e: int, x: u32) -> bool {
    exists|j: int| i <= j <= e && #[trigger] s[j] == x
}

proof fn lemma_list_runs(s: Seq<u32>, i: int)
    requires
        increasing(s),
        0 <= i < s.len(),
    ensures
        runs_text(s, i).len() > 0,
        is_digit(runs_text(s, i)[0]),
        is_digit(runs_text(s, i).last()),
        forall|x: u32| #[trigger]
            list_slots(runs_text(s, i)).contains(x) == tail_contains(s, i, x),
    decreases s.len() - i,
{
    let e = run_end(s, i);
    lemma_run_end(s, i);
    let head = run_text(s[i], s[e]);
    assert(s[i] <= s[e]);
    lemma_run_text(s[i], s[e]);
    let t = runs_text(s, i);
    let n = head.len() as int;
    assert forall|k: int| 0 <= k < n implies #[trigger] head[k] != ',' by {
        assert(is_digit(head[k]) || head[k] == '-');
    }
    assert forall|x: u32| #[trigger] span_contains(s, i, e, x) == (s[i] <= x <= s[e]) by {
        assert(s[e] == s[i] + (e - i));
        if s[i] <= x <= s[e] {
            assert(s[i + (x - s[i])] == s[i] + (x - s[i]));
        }
        if span_contains(s, i, e, x) {
            let j = choose|j: int| i <= j <= e && #[trigger] s[j] == x;
            assert(s[j] == s[i] + (j - i));
        }
    }
    if e + 1 < s.len() {
        let rest = runs_text(s, e + 1);
        lemma_list_runs(s, e + 1);
        assert(t == head + seq![','] + rest);
        assert forall|k: int| 0 <= k < n implies #[trigger] t[k] != ',' by {
            assert(t[k] == head[k]);
        }
        assert(t[n] == ',');
        lemma_first_at(t, ',', n);
        assert(t.take(n) =~= head);
        assert(t.skip(n + 1) =~= rest);
        assert(t.last() == rest.last());
        assert(t[0] == head[0]);
        assert forall|x: u32| #[trigger] list_slots(t).contains(x) == tail_contains(s, i, x) by {
            assert(list_slots(t) == run_slots(head).union(list_slots(rest)));
            assert(run_slots(head).contains(x) == span_contains(s, i, e, x));
            assert(list_slots(rest).contains(x) == tail_contains(s, e + 1, x));
            if tail_contains(s, e + 1, x) {
                let j = choose|j: int| e + 1 <= j < s.len() && #[trigger] s[j] == x;
                assert(s[j] == x);
            }
            if span_contains(s, i, e, x) {
                let j = choose|j: int| i <= j <= e && #[trigger] s[j] == x;
                assert(s[j] == x);
            }
            if tail_contains(s, i, x) {
                let j = choose|j: int| i <= j < s.len() && #[trigger] s[j] == x;
                if j > e {
                    assert(s[j] == x);
                } else {
                    assert(span_contains(s, i, e, x));
                }
            }
        }
    } else {
        lemma_first_at(t, ',', n);
        assert(list_slots(t) == run_slots(trimmed(t)));
        assert forall|x: u32| #[trigger] list_slots(t).contains(x) == tail_contains(s, i, x) by {
            assert(run_slots(head).contains(x) == span_contains(s, i, e, x));
        }
    }
}

proof fn lemma_full(s: Seq<u32>, total: int, i: int)
    requires
        increasing(s),
        s.len() == total,
        forall|j: int| 0 <= j < s.len() ==> #[trigger] s[j] < total,
        0 <= i < total,
    ensures
        s[i] == i,
{
    lemma_at_least(s, i);
    lemma_at_most(s, total, i);
}

/// As many ascending slots as the tree has are all of them exactly where the
/// last one is the tree's last.
proof fn lemma_whole(s: Seq<u32>, total: int)
    requires
        increasing(s),
        0 < total,
        s.len() == total,
    ensures
        is_whole(s, total) <==> s[total - 1] == total - 1,
{
    if s[total - 1] == total - 1 {
        assert forall|j: int| 0 <= j < s.len() implies #[trigger] s[j] < total by {
            assert(s[j] <= s[total - 1]);
        }
        assert forall|i: int| 0 <= i < total implies #[trigger] s[i] == i by {
            lemma_full(s, total, i);
        }
    }
}

proof fn lemma_at_least(s: Seq<u32>, i: int)
    requires
        increasing(s),
        0 <= i < s.len(),
    ensures
        s[i] >= i,
    decreases i,
{
    if i > 0 {
        lemma_at_least(s, i - 1);
    }
}

proof fn lemma_at_most(s: Seq<u32>, total: int, i: int)
    requires
        increasing(s),
        s.len() == total,
        forall|j: int| 0 <= j < s.len() ==> #[trigger] s[j] < total,
        0 <= i < total,
    ensures
        s[i] <= i,
    decreases total - i,
{
    if i + 1 < total {
        lemma_at_most(s, total, i + 1);
        assert(s[i] < s[i + 1]);
    }
}

/// What is published names exactly what is held: a field that a peer holding
/// slots of the tree publishes reads back as those slots.
#[verifier::spinoff_prover]
#[verifier::rlimit(60)]
pub proof fn law_serving_round_trip(held: Seq<u32>, total: int, x: u32)
    requires
        0 <= total,
        forall|i: int| 0 <= i < held.len() ==> #[trigger] held[i] < total,
    ensures
        serving_field(held, total) matches Some(text) ==> named_slots(text, total).contains(x)
            == held.contains(x),
{
    if let Some(text) = serving_field(held, total) {
        let s = ascending(held);
        lemma_ascending(held);
        assert forall|j: int| 0 <= j < s.len() implies #[trigger] s[j] < total by {
            assert(s.contains(s[j]));
            assert(held.contains(s[j]));
        }
        assert(held.contains(held[0]));
        assert(s.contains(held[0]));
        assert(s.len() > 0);
        if is_whole(s, total) {
            lemma_not_white('*');
            assert(trimmed(text) == text);
            if x < total {
                assert(s[x as int] == x);
                assert(s.contains(s[x as int]));
            }
            assert(held.contains(x) == s.contains(x));
        } else if runs_text(s, 0).len() <= MAX_SERVING_CHARS {
            lemma_list_runs(s, 0);
            lemma_not_white(text[0]);
            lemma_not_white(text.last());
            assert(trimmed(text) == text);
            assert(text != seq!['*']) by {
                assert(seq!['*'][0] == '*');
            }
            assert(list_slots(text).contains(x) == tail_contains(s, 0, x));
            assert(s.contains(x) == tail_contains(s, 0, x));
        } else {
            let bits = bit_field(s, total);
            law_base64_round_trip(bits);
            lemma_bit_field(s, total, x as int);
            let body = base64(bits);
            assert(bits.len() > 0);
            assert(body.len() > 0);
            lemma_symbols_not_white(bits, body.len() - 1);
            lemma_not_white('~');
            assert(text.last() == body.last());
            assert(trimmed(text) == text);
            assert(text.skip(1) =~= body);
            assert(text != seq!['*']) by {
                assert(text[0] == '~');
            }
            assert(held.contains(x) == s.contains(x));
        }
    }
}

proof fn lemma_symbols_not_white(bits: Seq<u8>, j: int)
    requires
        0 <= j < base64(bits).len(),
    ensures
        !is_white(base64(bits)[j]),
{
    let v = crate::base64::sextet(bits, j);
    assert(base64(bits)[j] == crate::base64::symbol(v));
}

/// A peer that holds every slot of the tree, and nothing else, says so in one
/// character.
pub proof fn law_complete_peer_is_one_character(held: Seq<u32>, total: int)
    requires
        0 < total <= u32::MAX + 1,
        forall|i: int| 0 <= i < held.len() ==> #[trigger] held[i] < total,
        forall|x: u32| x < total ==> #[trigger] held.contains(x),
    ensures
        serving_field(held, total) == Some(seq!['*']),
{
    let s = ascending(held);
    let range = Seq::new(total as nat, |i: int| i as u32);
    lemma_ascending(held);
    assert forall|y: u32| #[trigger] s.contains(y) == range.contains(y) by {
        if range.contains(y) {
            let k = choose|k: int| 0 <= k < range.len() && range[k] == y;
            assert(y < total);
        }
        if s.contains(y) {
            assert(held.contains(y));
            let k = choose|k: int| 0 <= k < held.len() && held[k] == y;
            assert(held[k] < total);
            assert(range[y as int] == y);
        }
    }
    lemma_increasing_unique(s, range);
    assert(held.contains(0u32));
}

/// In a tree that one bit per slot can describe, a peer that holds anything
/// publishes a field, however scattered its holding.
pub proof fn law_small_trees_are_always_advertised(held: Seq<u32>, total: int)
    requires
        held.len() > 0,
        0 < total <= MAX_BITMAP_SLOTS,
    ensures
        serving_field(held, total) is Some,
{
}

/// Slots are published as runs, with commas between. A run is as long as the slots
/// follow each other, and is written as its one slot, or as its first and its last
/// with a dash between.
pub proof fn law_runs_are_as_long_as_they_go(s: Seq<u32>, i: int, e: int)
    requires
        0 <= i <= e < s.len(),
        forall|k: int| i <= k < e ==> #[trigger] s[k] + 1 == s[k + 1],
        e + 1 < s.len() ==> s[e + 1] != s[e] + 1,
    ensures
        runs_text(s, i) == (if i == e {
            dec(s[i] as nat)
        } else {
            dec(s[i] as nat) + "-"@ + dec(s[e] as nat)
        }) + (if e + 1 < s.len() {
            ","@ + runs_text(s, e + 1)
        } else {
            Seq::empty()
        }),
{
    reveal_strlit("-");
    reveal_strlit(",");
    assert("-"@ =~= seq!['-']);
    assert(","@ =~= seq![',']);
    lemma_run_ends_at(s, i, e);
    if i != e {
        lemma_run_grows(s, i, e);
    }
    let head = run_text(s[i], s[e]);
    if e + 1 < s.len() {
        assert(head + seq![','] + runs_text(s, e + 1) =~= head + (seq![','] + runs_text(s, e + 1)));
    } else {
        assert(head + Seq::<char>::empty() =~= head);
    }
}

proof fn lemma_run_grows(s: Seq<u32>, i: int, e: int)
    requires
        0 <= i < e < s.len(),
        forall|k: int| i <= k < e ==> #[trigger] s[k] + 1 == s[k + 1],
    ensures
        s[i] < s[e],
    decreases e - i,
{
    assert(s[e - 1] + 1 == s[e - 1 + 1]);
    if i + 1 < e {
        lemma_run_grows(s, i, e - 1);
    }
}

proof fn lemma_run_ends_at(s: Seq<u32>, i: int, e: int)
    requires
        0 <= i <= e < s.len(),
        forall|k: int| i <= k < e ==> #[trigger] s[k] + 1 == s[k + 1],
        e + 1 < s.len() ==> s[e + 1] != s[e] + 1,
    ensures
        run_end(s, i) == e,
    decreases e - i,
{
    if i < e {
        assert(s[i] + 1 == s[i + 1]);
        lemma_run_ends_at(s, i + 1, e);
    }
}

/// A peer that holds nothing publishes nothing. One that holds part of a tree
/// publishes its runs in increasing order where they take at most 512 characters,
/// one bit for each slot where they take more and the tree has at most 3048, and
/// nothing in any larger tree.
pub proof fn law_a_holding_is_published_in_the_form_that_fits(held: Seq<u32>, total: int)
    requires
        total >= 0,
    ensures
        held.len() == 0 ==> serving_field(held, total) is None,
        held.len() > 0 && !is_whole(ascending(held), total) ==> {
            let runs = runs_text(ascending(held), 0);
            &&& runs.len() <= 512 ==> serving_field(held, total) == Some(runs)
            &&& runs.len() > 512 && 0 < total <= 3_048 ==> serving_field(held, total) == Some(
                "~"@ + base64(bit_field(ascending(held), total)),
            )
            &&& runs.len() > 512 && (total == 0 || total > 3_048) ==> serving_field(
                held,
                total,
            ) is None
        },
        increasing(ascending(held)),
        forall|x: u32| #[trigger] ascending(held).contains(x) <==> held.contains(x),
{
    reveal_strlit("~");
    assert("~"@ =~= seq!['~']);
    lemma_ascending(held);
    assert(MAX_BITMAP_SLOTS == 3_048);
}

/// A slot is published as one bit: of the byte that has its eighth part for a place,
/// the bit that its remainder names, counted from the least.
pub proof fn law_a_slot_is_one_bit(held: Seq<u32>, total: int, slot: u32)
    requires
        total >= 0,
    ensures
        bit_field(held, total).len() == (total + 7) / 8,
        slot < total ==> (held.contains(slot) <==> bit_field(held, total)[slot as int / 8] & (1u8
            << ((slot % 8) as u8)) != 0),
{
    lemma_bit_field(held, total, slot as int);
}

/// A star names every slot of the tree, a tilde the slots whose bits are set, and
/// everything else a list of runs. White space around a field does not count.
pub proof fn law_a_field_names_slots(field: Seq<char>, total: int, x: u32)
    ensures
        ({
            let text = trimmed(field);
            &&& text == "*"@ ==> (named_slots(field, total).contains(x) <==> x < total)
            &&& text.len() > 0 && text[0] == '~' ==> (named_slots(field, total).contains(x) <==> x
                < total && x as int / 8 < bytes_from(text.skip(1)).len() && bytes_from(
                text.skip(1),
            )[x as int / 8] & (1u8 << ((x % 8) as u8)) != 0)
            &&& text != "*"@ && !(text.len() > 0 && text[0] == '~') ==> (named_slots(
                field,
                total,
            ).contains(x) <==> list_slots(text).contains(x))
        }),
{
    reveal_strlit("*");
    assert("*"@ =~= seq!['*']);
}

/// A list names what its runs name: a number itself, and two with a dash between all
/// from the first to the last. What cannot be read names nothing, and does not stand
/// in the way of the rest.
pub proof fn law_a_list_names_what_its_runs_name(
    run: Seq<char>,
    rest: Seq<char>,
    first: Seq<char>,
    last: Seq<char>,
    x: u32,
)
    requires
        forall|i: int| 0 <= i < run.len() ==> #[trigger] run[i] != ',',
        forall|i: int| 0 <= i < first.len() ==> #[trigger] first[i] != '-',
    ensures
        list_slots(run).contains(x) <==> run_slots(trimmed(run)).contains(x),
        list_slots(run + ","@ + rest).contains(x) <==> run_slots(trimmed(run)).contains(x)
            || list_slots(rest).contains(x),
        run_slots(first).contains(x) <==> number(first) == Some(x),
        run_slots(first + "-"@ + last).contains(x) <==> (number(first) matches Some(a) && number(
            last,
        ) matches Some(b) && a <= x <= b),
{
    reveal_strlit("-");
    reveal_strlit(",");
    assert("-"@ =~= seq!['-']);
    assert(","@ =~= seq![',']);
    crate::text::lemma_first_at(run, ',', run.len() as int);
    crate::text::lemma_first_at(first, '-', first.len() as int);
    let list = run + ","@ + rest;
    let n = run.len() as int;
    assert forall|i: int| 0 <= i < n implies #[trigger] list[i] != ',' by {
        assert(list[i] == run[i]);
    }
    crate::text::lemma_first_at(list, ',', n);
    assert(list.take(n) =~= run);
    assert(list.skip(n + 1) =~= rest);
    let pair = first + "-"@ + last;
    let k = first.len() as int;
    assert forall|i: int| 0 <= i < k implies #[trigger] pair[i] != '-' by {
        assert(pair[i] == first[i]);
    }
    crate::text::lemma_first_at(pair, '-', k);
    assert(pair.take(k) =~= first);
    assert(pair.skip(k + 1) =~= last);
}

} // verus!
