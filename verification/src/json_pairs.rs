//! Arrays of two large integers in a JSON text.

use crate::bytes::copy_bytes;
use vstd::arithmetic::power::{lemma_pow0, lemma_pow_increases, pow};
use vstd::prelude::*;

verus! {

/// Where a byte of a JSON text stands: 0 outside quotes, 1 inside quotes, 2 inside quotes and right
/// behind a backslash that escapes it.
pub open spec fn quote_state(text: Seq<u8>, i: int) -> int
    decreases i,
{
    if i <= 0 {
        0
    } else {
        quote_step(quote_state(text, i - 1), text[i - 1])
    }
}

/// Where the byte behind `c` stands, given where `c` does.
pub open spec fn quote_step(state: int, c: u8) -> int {
    if state == 0 {
        if c == 0x22 {
            1
        } else {
            0
        }
    } else if state == 1 {
        if c == 0x22 {
            0
        } else if c == 0x5C {
            2
        } else {
            1
        }
    } else {
        1
    }
}

/// Whether a byte is a decimal digit.
pub open spec fn is_digit(c: u8) -> bool {
    0x30 <= c <= 0x39
}

/// Whether a byte is a space between JSON tokens.
pub open spec fn is_space(c: u8) -> bool {
    c == 0x20 || c == 0x09 || c == 0x0A || c == 0x0D
}

/// The end of the spaces from `i` on.
pub open spec fn spaces_end(text: Seq<u8>, i: int) -> int
    decreases text.len() - i,
{
    if 0 <= i < text.len() && is_space(text[i]) {
        spaces_end(text, i + 1)
    } else {
        i
    }
}

/// The end of the digits from `i` on.
pub open spec fn digits_end(text: Seq<u8>, i: int) -> int
    decreases text.len() - i,
{
    if 0 <= i < text.len() && is_digit(text[i]) {
        digits_end(text, i + 1)
    } else {
        i
    }
}

/// The number that decimal digits write.
pub open spec fn digits_value(digits: Seq<u8>) -> nat
    decreases digits.len(),
{
    if digits.len() == 0 {
        0
    } else {
        10 * digits_value(digits.drop_last()) + (digits.last() - 0x30) as nat
    }
}

/// Whether the digits from `p` on are a number above `floor` and not above `top`.
pub open spec fn is_large(text: Seq<u8>, p: int, floor: nat, top: nat) -> bool {
    &&& p < digits_end(text, p)
    &&& text[p] != 0x30
    &&& floor < digits_value(text.subrange(p, digits_end(text, p))) <= top
}

/// Whether a byte stands at a place of a text.
pub open spec fn has_byte(text: Seq<u8>, i: int, c: u8) -> bool {
    0 <= i < text.len() && text[i] == c
}

/// Where the first number of an array starts whose bracket stands at `a`.
pub open spec fn first_number(text: Seq<u8>, a: int) -> int {
    spaces_end(text, a + 1)
}

/// Where the comma behind the first number stands.
pub open spec fn comma_place(text: Seq<u8>, a: int) -> int {
    spaces_end(text, digits_end(text, first_number(text, a)))
}

/// Where the second number starts.
pub open spec fn second_number(text: Seq<u8>, a: int) -> int {
    spaces_end(text, comma_place(text, a) + 1)
}

/// Where the bracket behind the second number stands.
pub open spec fn closing_place(text: Seq<u8>, a: int) -> int {
    spaces_end(text, digits_end(text, second_number(text, a)))
}

/// Whether an array of exactly two numbers, both above `floor` and not above `top`, stands at `a`.
pub open spec fn is_large_pair(text: Seq<u8>, a: int, floor: nat, top: nat) -> bool {
    &&& has_byte(text, a, 0x5B)
    &&& quote_state(text, a) == 0
    &&& is_large(text, first_number(text, a), floor, top)
    &&& has_byte(text, comma_place(text, a), 0x2C)
    &&& is_large(text, second_number(text, a), floor, top)
    &&& has_byte(text, closing_place(text, a), 0x5D)
}

/// Whether an array of exactly two large numbers stands anywhere outside quotes.
pub open spec fn has_large_pair(text: Seq<u8>, floor: nat, top: nat) -> bool {
    exists|a: int| #[trigger] is_large_pair(text, a, floor, top)
}

/// A text with the digits from `p` up to `q` replaced by a one and spaces.
pub open spec fn with_one(text: Seq<u8>, p: int, q: int) -> Seq<u8> {
    Seq::new(
        text.len(),
        |k: int|
            if k == p {
                0x31u8
            } else if p < k < q {
                0x20u8
            } else {
                text[k]
            },
    )
}

/// A text after the places before `n`: of each array of exactly two large numbers that starts
/// there, the second number is replaced by one.
pub open spec fn reduced_until(text: Seq<u8>, floor: nat, top: nat, n: int) -> Seq<u8>
    decreases n,
{
    if n <= 0 {
        text
    } else {
        let t = reduced_until(text, floor, top, n - 1);
        if is_large_pair(t, n - 1, floor, top) {
            let p = second_number(t, n - 1);
            with_one(t, p, digits_end(t, p))
        } else {
            t
        }
    }
}

/// A text in which, of each array of exactly two large numbers outside quotes, the second number
/// is replaced by one.
pub open spec fn pairs_reduced(text: Seq<u8>, floor: nat, top: nat) -> Seq<u8> {
    reduced_until(text, floor, top, text.len() as int)
}

proof fn lemma_ends(text: Seq<u8>, i: int)
    requires
        0 <= i <= text.len(),
    ensures
        i <= spaces_end(text, i) <= text.len(),
        i <= digits_end(text, i) <= text.len(),
    decreases text.len() - i,
{
    if i < text.len() {
        lemma_ends(text, i + 1);
    }
}

/// Spaces and digits end at the same place in two texts that agree up to a byte that is neither.
proof fn lemma_ends_agree(t: Seq<u8>, u: Seq<u8>, i: int, stop: int)
    requires
        0 <= i <= stop < t.len(),
        t.len() == u.len(),
        forall|k: int| 0 <= k <= stop ==> t[k] == #[trigger] u[k],
        !is_space(t[stop]),
        !is_digit(t[stop]),
    ensures
        spaces_end(t, i) == spaces_end(u, i) <= stop,
        digits_end(t, i) == digits_end(u, i) <= stop,
        i <= spaces_end(t, i),
        i <= digits_end(t, i),
    decreases stop - i,
{
    assert(t[i] == u[i]);
    if i < stop {
        lemma_ends_agree(t, u, i + 1, stop);
    }
}

proof fn lemma_quotes_agree(t: Seq<u8>, u: Seq<u8>, i: int)
    requires
        0 <= i <= t.len(),
        t.len() == u.len(),
        forall|k: int| 0 <= k < i ==> t[k] == #[trigger] u[k],
    ensures
        quote_state(t, i) == quote_state(u, i),
    decreases i,
{
    if i > 0 {
        lemma_quotes_agree(t, u, i - 1);
        assert(t[i - 1] == u[i - 1]);
    }
}

/// A number is large in both of two texts that agree up to a byte that is no digit, or in none.
proof fn lemma_large_agrees(t: Seq<u8>, u: Seq<u8>, p: int, stop: int, floor: nat, top: nat)
    requires
        0 <= p <= stop < t.len(),
        t.len() == u.len(),
        forall|k: int| 0 <= k <= stop ==> t[k] == #[trigger] u[k],
        !is_space(t[stop]),
        !is_digit(t[stop]),
    ensures
        is_large(t, p, floor, top) == is_large(u, p, floor, top),
{
    lemma_ends_agree(t, u, p, stop);
    let q = digits_end(t, p);
    assert(t.subrange(p, q) =~= u.subrange(p, q));
    assert(t[p] == u[p]);
}

/// Whether a pair stands at a place does not rest on what follows the next opening bracket.
proof fn lemma_pair_agrees(t: Seq<u8>, u: Seq<u8>, a: int, stop: int, floor: nat, top: nat)
    requires
        0 <= a < stop < t.len(),
        t.len() == u.len(),
        forall|k: int| 0 <= k <= stop ==> t[k] == #[trigger] u[k],
        t[stop] == 0x5B,
    ensures
        is_large_pair(t, a, floor, top) == is_large_pair(u, a, floor, top),
{
    assert(t[a] == u[a]);
    lemma_quotes_agree(t, u, a);
    let p = first_number(t, a);
    lemma_ends_agree(t, u, a + 1, stop);
    lemma_large_agrees(t, u, p, stop, floor, top);
    lemma_ends_agree(t, u, p, stop);
    lemma_ends_agree(t, u, digits_end(t, p), stop);
    let c = comma_place(t, a);
    assert(t[c] == u[c]);
    if c < stop {
        lemma_ends_agree(t, u, c + 1, stop);
        let p2 = second_number(t, a);
        lemma_large_agrees(t, u, p2, stop, floor, top);
        lemma_ends_agree(t, u, p2, stop);
        lemma_ends_agree(t, u, digits_end(t, p2), stop);
        let r = closing_place(t, a);
        assert(t[r] == u[r]);
    }
}

/// Where the second number of a pair starts and ends.
proof fn lemma_second_number(text: Seq<u8>, a: int, floor: nat, top: nat)
    requires
        is_large_pair(text, a, floor, top),
    ensures
        a < comma_place(text, a) < second_number(text, a) < digits_end(
            text,
            second_number(text, a),
        ) <= closing_place(text, a) < text.len(),
{
    lemma_ends(text, a + 1);
    let p = first_number(text, a);
    lemma_ends(text, p);
    lemma_ends(text, digits_end(text, p));
    let c = comma_place(text, a);
    lemma_ends(text, c + 1);
    let p2 = second_number(text, a);
    lemma_ends(text, p2);
    lemma_ends(text, digits_end(text, p2));
}

proof fn lemma_digits_stop(text: Seq<u8>, i: int)
    requires
        0 <= i <= text.len(),
    ensures
        digits_end(text, i) < text.len() ==> !is_digit(text[digits_end(text, i)]),
    decreases text.len() - i,
{
    if i < text.len() && is_digit(text[i]) {
        lemma_digits_stop(text, i + 1);
    }
}

/// Replacing the second number of a pair by one leaves no pair there, and none at an earlier place
/// where none was.
proof fn lemma_reduced_is_no_pair(text: Seq<u8>, a: int, floor: nat, top: nat)
    requires
        floor >= 1,
        is_large_pair(text, a, floor, top),
    ensures
        ({
            let p = second_number(text, a);
            let u = with_one(text, p, digits_end(text, p));
            &&& quote_state(u, a) == quote_state(text, a)
            &&& forall|b: int|
                b < a && !is_large_pair(text, b, floor, top) ==> !#[trigger] is_large_pair(
                    u,
                    b,
                    floor,
                    top,
                )
            &&& !is_large_pair(u, a, floor, top)
        }),
{
    lemma_second_number(text, a, floor, top);
    let p = second_number(text, a);
    let q = digits_end(text, p);
    let u = with_one(text, p, q);
    let c = comma_place(text, a);
    lemma_quotes_agree(text, u, a);
    assert forall|b: int|
        b < a && !is_large_pair(text, b, floor, top) implies !#[trigger] is_large_pair(
        u,
        b,
        floor,
        top,
    ) by {
        if b >= 0 {
            lemma_pair_agrees(text, u, b, a, floor, top);
        }
    }
    lemma_ends_agree(text, u, a + 1, c);
    let first = first_number(text, a);
    lemma_ends_agree(text, u, first, c);
    lemma_ends_agree(text, u, digits_end(text, first), c);
    assert(comma_place(u, a) == c);
    lemma_same_spaces(text, u, c + 1, p);
    assert(second_number(u, a) == p);
    lemma_digits_stop(text, p);
    assert(digits_end(u, p) == p + 1) by {
        reveal_with_fuel(digits_end, 2);
        if q == p + 1 {
            assert(u[p + 1] == text[q]);
        } else {
            assert(u[p + 1] == 0x20);
        }
    }
    assert(u.subrange(p, p + 1) =~= seq![0x31u8]);
    assert(digits_value(seq![0x31u8]) == 1) by {
        reveal_with_fuel(digits_value, 2);
        assert(seq![0x31u8].drop_last() =~= Seq::<u8>::empty());
    }
}

/// Spaces that end at `p` end there too in a text that agrees up to `p` and has no space there.
proof fn lemma_same_spaces(t: Seq<u8>, u: Seq<u8>, i: int, p: int)
    requires
        0 <= i <= p < t.len(),
        t.len() == u.len(),
        forall|k: int| 0 <= k < p ==> t[k] == #[trigger] u[k],
        spaces_end(t, i) == p,
        !is_space(u[p]),
    ensures
        spaces_end(u, i) == p,
    decreases p - i,
{
    if i < p {
        assert(t[i] == u[i]);
        lemma_same_spaces(t, u, i + 1, p);
    }
}

fn skip_spaces(text: &Vec<u8>, from: usize) -> (end: usize)
    requires
        from <= text@.len(),
    ensures
        end == spaces_end(text@, from as int),
        from <= end <= text@.len(),
{
    let mut i: usize = from;
    while i < text.len() && (text[i] == 0x20 || text[i] == 0x09 || text[i] == 0x0A || text[i]
        == 0x0D)
        invariant
            from <= i <= text@.len(),
            spaces_end(text@, from as int) == spaces_end(text@, i as int),
        decreases text@.len() - i,
    {
        i += 1;
    }
    i
}

/// The end of the digits from a place on, and whether they are a large number.
fn read_large(text: &Vec<u8>, from: usize, floor: u64, top: u64) -> (r: (usize, bool))
    requires
        from <= text@.len(),
    ensures
        r.0 == digits_end(text@, from as int),
        from <= r.0 <= text@.len(),
        r.1 == is_large(text@, from as int, floor as nat, top as nat),
{
    let ghost t = text@;
    let mut i: usize = from;
    let mut value: u64 = 0;
    let mut over: bool = false;
    assert(t.subrange(from as int, from as int) =~= Seq::<u8>::empty());
    while i < text.len() && text[i] >= 0x30 && text[i] <= 0x39
        invariant
            t == text@,
            from <= i <= t.len(),
            digits_end(t, from as int) == digits_end(t, i as int),
            over ==> digits_value(t.subrange(from as int, i as int)) > top,
            !over ==> value == digits_value(t.subrange(from as int, i as int)) && value <= top,
        decreases t.len() - i,
    {
        let c: u8 = text[i];
        proof {
            let digits = t.subrange(from as int, i + 1);
            assert(digits.drop_last() =~= t.subrange(from as int, i as int));
            assert(digits.last() == c);
        }
        if !over {
            let more: u128 = 10 * (value as u128) + (c - 0x30) as u128;
            if more > top as u128 {
                over = true;
            } else {
                value = more as u64;
            }
        }
        i += 1;
    }
    (i, i > from && text[from] != 0x30 && !over && value > floor)
}

/// The extent of the second number, if an array of exactly two large numbers stands at a place
/// outside quotes.
fn find_pair(text: &Vec<u8>, a: usize, floor: u64, top: u64) -> (r: Option<(usize, usize)>)
    requires
        a < text@.len(),
        quote_state(text@, a as int) == 0,
    ensures
        match r {
            Some(extent) => {
                &&& is_large_pair(text@, a as int, floor as nat, top as nat)
                &&& extent.0 == second_number(text@, a as int)
                &&& extent.1 == digits_end(text@, extent.0 as int)
                &&& a < extent.0 < extent.1 <= text@.len()
            },
            None => !is_large_pair(text@, a as int, floor as nat, top as nat),
        },
{
    let size: usize = text.len();
    if text[a] != 0x5B {
        return None;
    }
    let first: usize = skip_spaces(text, a + 1);
    let (first_end, first_large): (usize, bool) = read_large(text, first, floor, top);
    let comma: usize = skip_spaces(text, first_end);
    if !first_large || comma >= size || text[comma] != 0x2C {
        return None;
    }
    let second: usize = skip_spaces(text, comma + 1);
    let (second_end, second_large): (usize, bool) = read_large(text, second, floor, top);
    let closing: usize = skip_spaces(text, second_end);
    if !second_large || closing >= size || text[closing] != 0x5D {
        return None;
    }
    Some((second, second_end))
}

/// Replace, of each array of exactly two large numbers outside quotes, the second number by one.
pub fn reduce_pairs(text: &[u8], floor: u64, top: u64) -> (r: Vec<u8>)
    requires
        floor >= 1,
    ensures
        r@ == pairs_reduced(text@, floor as nat, top as nat),
        r@.len() == text@.len(),
        !has_large_pair(r@, floor as nat, top as nat),
{
    let ghost t = text@;
    let mut out: Vec<u8> = copy_bytes(text);
    let mut state: u8 = 0;
    let mut i: usize = 0;
    while i < out.len()
        invariant
            t == text@,
            floor >= 1,
            i <= out@.len() == t.len(),
            out@ == reduced_until(t, floor as nat, top as nat, i as int),
            state == quote_state(out@, i as int),
            forall|a: int|
                a < i ==> !#[trigger] is_large_pair(out@, a, floor as nat, top as nat),
        decreases t.len() - i,
    {
        let c: u8 = out[i];
        if state == 0 {
            let ghost before = out@;
            if let Some(extent) = find_pair(&out, i, floor, top) {
                let (p, q): (usize, usize) = extent;
                out.set(p, 0x31);
                let mut k: usize = p + 1;
                while k < q
                    invariant
                        p < k <= q <= out@.len() == before.len(),
                        forall|m: int|
                            0 <= m < out@.len() ==> (#[trigger] out@[m]) == (if m == p {
                                0x31u8
                            } else if p < m < k {
                                0x20u8
                            } else {
                                before[m]
                            }),
                    decreases q - k,
                {
                    out.set(k, 0x20);
                    k += 1;
                }
                proof {
                    assert(out@ =~= with_one(before, p as int, q as int));
                    lemma_reduced_is_no_pair(before, i as int, floor as nat, top as nat);
                }
            }
            assert(out@[i as int] == c);
            assert(out@ == reduced_until(t, floor as nat, top as nat, i + 1));
        } else {
            assert(!is_large_pair(out@, i as int, floor as nat, top as nat));
        }
        state = if state == 0 {
            if c == 0x22 {
                1
            } else {
                0
            }
        } else if state == 1 {
            if c == 0x22 {
                0
            } else if c == 0x5C {
                2
            } else {
                1
            }
        } else {
            1
        };
        i += 1;
    }
    out
}

proof fn lemma_reduced_keeps_plain(text: Seq<u8>, floor: nat, top: nat, n: int)
    requires
        !has_large_pair(text, floor, top),
    ensures
        reduced_until(text, floor, top, n) == text,
    decreases n,
{
    if n > 0 {
        lemma_reduced_keeps_plain(text, floor, top, n - 1);
        assert(!is_large_pair(text, n - 1, floor, top));
    }
}

/// A text without an array of exactly two large numbers outside quotes stays as it is.
pub proof fn law_plain_text_stays(text: Seq<u8>, floor: nat, top: nat)
    requires
        !has_large_pair(text, floor, top),
    ensures
        pairs_reduced(text, floor, top) == text,
{
    lemma_reduced_keeps_plain(text, floor, top, text.len() as int);
}

proof fn lemma_run_of_digits(text: Seq<u8>, i: int, k: int)
    requires
        0 <= i <= k < digits_end(text, i),
    ensures
        k < text.len(),
        is_digit(text[k]),
    decreases text.len() - i,
{
    if i < k {
        lemma_run_of_digits(text, i + 1, k);
    }
}

proof fn lemma_only_digits_change(text: Seq<u8>, floor: nat, top: nat, n: int, k: int)
    requires
        0 <= k < text.len(),
    ensures
        reduced_until(text, floor, top, n).len() == text.len(),
        reduced_until(text, floor, top, n)[k] != text[k] ==> is_digit(text[k]),
    decreases n,
{
    if n > 0 {
        lemma_only_digits_change(text, floor, top, n - 1, k);
        let t = reduced_until(text, floor, top, n - 1);
        if is_large_pair(t, n - 1, floor, top) {
            lemma_second_number(t, n - 1, floor, top);
            let p = second_number(t, n - 1);
            if p <= k < digits_end(t, p) {
                lemma_run_of_digits(t, p, k);
            }
        }
    }
}

/// Nothing but digits is changed, and no byte is added or dropped.
pub proof fn law_only_digits_change(text: Seq<u8>, floor: nat, top: nat, k: int)
    requires
        0 <= k < text.len(),
    ensures
        pairs_reduced(text, floor, top).len() == text.len(),
        !(0x30 <= text[k] <= 0x39) ==> pairs_reduced(text, floor, top)[k] == text[k],
{
    lemma_only_digits_change(text, floor, top, text.len() as int, k);
}

/// Whether one of the ten bytes from `i` on is no decimal digit.
pub open spec fn breaks_number(text: Seq<u8>, i: int) -> bool {
    exists|k: int| i <= k < i + 10 && !(0x30 <= #[trigger] text[k] <= 0x39)
}

proof fn lemma_digits_bound(digits: Seq<u8>)
    requires
        forall|k: int| 0 <= k < digits.len() ==> is_digit(#[trigger] digits[k]),
    ensures
        digits_value(digits) < pow(10, digits.len()),
    decreases digits.len(),
{
    lemma_pow0(10);
    if digits.len() > 0 {
        let t = digits.drop_last();
        assert forall|k: int| 0 <= k < t.len() implies is_digit(#[trigger] t[k]) by {
            assert(t[k] == digits[k]);
        }
        lemma_digits_bound(t);
        assert(is_digit(digits[digits.len() - 1]));
        reveal(pow);
        assert(pow(10, digits.len()) == 10 * pow(10, t.len()));
    }
}

/// A text without ten digits in a row stays as it is, if ten digits are needed for a large number.
pub proof fn law_text_without_long_numbers_stays(text: Seq<u8>, floor: nat, top: nat)
    requires
        floor >= 1_000_000_000,
        forall|i: int| 0 <= i && i + 10 <= text.len() ==> #[trigger] breaks_number(text, i),
    ensures
        !has_large_pair(text, floor, top),
        pairs_reduced(text, floor, top) == text,
{
    if has_large_pair(text, floor, top) {
        let a = choose|a: int| #[trigger] is_large_pair(text, a, floor, top);
        let p = first_number(text, a);
        lemma_spaces_forward(text, a + 1);
        let end = digits_end(text, p);
        lemma_digits_end_within(text, p);
        let digits = text.subrange(p, end);
        assert forall|k: int| 0 <= k < digits.len() implies is_digit(#[trigger] digits[k]) by {
            lemma_run_of_digits(text, p, p + k);
        }
        lemma_digits_bound(digits);
        if digits.len() >= 10 {
            assert(breaks_number(text, p));
            let k = choose|k: int| p <= k < p + 10 && !(0x30 <= #[trigger] text[k] <= 0x39);
            lemma_run_of_digits(text, p, k);
        } else {
            lemma_pow_increases(10, digits.len(), 9);
            assert(pow(10, 9) == 1_000_000_000) by {
                reveal_with_fuel(pow, 10);
            }
        }
        assert(false);
    }
    law_plain_text_stays(text, floor, top);
}

proof fn lemma_spaces_forward(text: Seq<u8>, i: int)
    ensures
        spaces_end(text, i) >= i,
    decreases text.len() - i,
{
    if 0 <= i < text.len() && is_space(text[i]) {
        lemma_spaces_forward(text, i + 1);
    }
}

proof fn lemma_digits_end_within(text: Seq<u8>, i: int)
    ensures
        i <= digits_end(text, i),
        i <= text.len() ==> digits_end(text, i) <= text.len(),
    decreases text.len() - i,
{
    if 0 <= i < text.len() && is_digit(text[i]) {
        lemma_digits_end_within(text, i + 1);
    }
}

} // verus!
