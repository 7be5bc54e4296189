//! Little-endian integers and plain byte copying.

use vstd::arithmetic::div_mod::lemma_div_denominator;
use vstd::arithmetic::power::{lemma_pow0, lemma_pow1, lemma_pow_adds, pow};
use vstd::arithmetic::power2::{lemma2_to64, lemma_pow2_adds, lemma_pow2_pos, pow2};
use vstd::prelude::*;

verus! {

/// The lowest `width` base-256 digits of `n`, least significant first.
pub open spec fn le_bytes(n: nat, width: nat) -> Seq<u8>
    decreases width,
{
    if width == 0 {
        Seq::empty()
    } else {
        seq![(n % 256) as u8] + le_bytes(n / 256, (width - 1) as nat)
    }
}

/// The number whose base-256 digits are `s`, least significant first.
pub open spec fn le_value(s: Seq<u8>) -> nat
    decreases s.len(),
{
    if s.len() == 0 {
        0
    } else {
        s[0] as nat + 256 * le_value(s.skip(1))
    }
}

/// `le_bytes` yields exactly `width` bytes.
pub broadcast proof fn lemma_le_bytes_len(n: nat, width: nat)
    ensures
        #[trigger] le_bytes(n, width).len() == width,
    decreases width,
{
    if width > 0 {
        lemma_le_bytes_len(n / 256, (width - 1) as nat);
    }
}

/// Reading back the digits of a number that fits gives the number.
pub proof fn lemma_le_value_of_le_bytes(n: nat, width: nat)
    requires
        n < pow(256, width),
    ensures
        le_value(le_bytes(n, width)) == n,
    decreases width,
{
    lemma_pow0(256);
    if width > 0 {
        let rest = le_bytes(n / 256, (width - 1) as nat);
        lemma_pow1(256);
        lemma_pow_adds(256, 1, (width - 1) as nat);
        assert(n / 256 < pow(256, (width - 1) as nat)) by (nonlinear_arith)
            requires
                n < 256 * pow(256, (width - 1) as nat),
        ;
        lemma_le_value_of_le_bytes(n / 256, (width - 1) as nat);
        assert(le_bytes(n, width).skip(1) =~= rest);
    }
}

/// Writing a value out again gives the bytes that it was read from.
pub proof fn lemma_le_bytes_of_le_value(s: Seq<u8>)
    ensures
        le_bytes(le_value(s), s.len()) == s,
        le_value(s) < pow(256, s.len()),
    decreases s.len(),
{
    lemma_pow0(256);
    if s.len() > 0 {
        let rest = s.skip(1);
        lemma_le_bytes_of_le_value(rest);
        lemma_pow1(256);
        lemma_pow_adds(256, 1, rest.len());
        assert(le_value(s) % 256 == s[0] as nat);
        assert(le_value(s) / 256 == le_value(rest));
        assert(le_bytes(le_value(s), s.len()) =~= s);
    }
}

/// The bytes of a number are its digits to the base 256, the lowest first.
pub proof fn lemma_le_value_digit(s: Seq<u8>, i: nat)
    requires
        i < s.len(),
    ensures
        le_value(s) / pow2(8 * i) % 256 == s[i as int],
    decreases i,
{
    lemma2_to64();
    let rest = s.skip(1);
    let v = le_value(rest);
    assert(le_value(s) == s[0] + 256 * v);
    if i > 0 {
        let j = (i - 1) as nat;
        lemma_le_value_digit(rest, j);
        lemma_pow2_pos(8 * j);
        lemma_pow2_adds(8, 8 * j);
        assert(8 + 8 * j == 8 * i);
        lemma_div_denominator(le_value(s) as int, 256, pow2(8 * j) as int);
        assert(le_value(s) / 256 == v);
        assert(rest[j as int] == s[i as int]);
    } else {
        assert(8 * i == 0);
        assert(le_value(s) / 1 == le_value(s));
    }
}

/// One more byte on top adds that byte times the next power of 256.
pub proof fn lemma_le_value_push(s: Seq<u8>, b: u8)
    ensures
        le_value(s.push(b)) == le_value(s) + b * pow(256, s.len()),
    decreases s.len(),
{
    lemma_pow0(256);
    let t = s.push(b);
    if s.len() == 0 {
        assert(t.skip(1) =~= Seq::<u8>::empty());
        assert(le_value(t.skip(1)) == 0);
    } else {
        let rest = s.skip(1);
        assert(t.skip(1) =~= rest.push(b));
        lemma_le_value_push(rest, b);
        lemma_pow1(256);
        lemma_pow_adds(256, 1, rest.len());
        assert(256 * (b * pow(256, rest.len())) == b * (256 * pow(256, rest.len())))
            by (nonlinear_arith);
    }
}

/// The powers of 256 that bound the integer types in use.
pub proof fn lemma_pow256_widths()
    ensures
        pow(256, 4) == 0x1_0000_0000,
        pow(256, 8) == 0x1_0000_0000_0000_0000,
{
    reveal_with_fuel(pow, 9);
}

/// Append the lowest `width` bytes of `n`, least significant first.
fn put_le(out: &mut Vec<u8>, n: u64, width: usize)
    ensures
        final(out)@ == old(out)@ + le_bytes(n as nat, width as nat),
{
    let mut rest: u64 = n;
    let mut left: usize = width;
    assert(out@ + le_bytes(rest as nat, left as nat) =~= old(out)@ + le_bytes(n as nat, width as nat));
    while left > 0
        invariant
            out@ + le_bytes(rest as nat, left as nat) == old(out)@ + le_bytes(n as nat, width as nat),
        decreases left,
    {
        let ghost before = out@;
        out.push((rest % 256) as u8);
        assert(out@ + le_bytes(rest as nat / 256, (left - 1) as nat) =~= before + le_bytes(
            rest as nat,
            left as nat,
        ));
        rest = rest / 256;
        left -= 1;
    }
    assert(out@ + le_bytes(rest as nat, 0) =~= out@);
}

/// Append the four little-endian bytes of `n`.
pub fn put_u32(out: &mut Vec<u8>, n: u32)
    ensures
        final(out)@ == old(out)@ + le_bytes(n as nat, 4),
{
    put_le(out, n as u64, 4);
}

/// Append the eight little-endian bytes of `n`.
pub fn put_u64(out: &mut Vec<u8>, n: u64)
    ensures
        final(out)@ == old(out)@ + le_bytes(n as nat, 8),
{
    put_le(out, n, 8);
}

/// The four bytes at `at`, read as a little-endian integer.
pub fn get_u32(data: &[u8], at: usize) -> (n: u32)
    requires
        at + 4 <= data@.len(),
    ensures
        n as nat == le_value(data@.subrange(at as int, at + 4)),
{
    proof {
        let s = data@.subrange(at as int, at + 4);
        reveal_with_fuel(le_value, 5);
        assert(s.skip(1).skip(1)[0] == data@[at + 2]);
        assert(s.skip(1).skip(1).skip(1)[0] == data@[at + 3]);
    }
    data[at] as u32 + 0x100 * data[at + 1] as u32 + 0x1_0000 * data[at + 2] as u32 + 0x100_0000
        * data[at + 3] as u32
}

/// The eight bytes at `at`, read as a little-endian integer.
pub fn get_u64(data: &[u8], at: usize) -> (n: u64)
    requires
        at + 8 <= data@.len(),
    ensures
        n as nat == le_value(data@.subrange(at as int, at + 8)),
{
    let len: usize = data.len();
    assert(at + 8 <= len);
    let low: u32 = get_u32(data, at);
    let high: u32 = get_u32(data, at + 4);
    proof {
        let s = data@.subrange(at as int, at + 8);
        reveal_with_fuel(le_value, 5);
        assert(s.skip(1).skip(1).skip(1).skip(1) =~= data@.subrange(at + 4, at + 8));
        let t = data@.subrange(at as int, at + 4);
        assert(t.skip(1)[0] == s.skip(1)[0]);
        assert(t.skip(1).skip(1)[0] == s.skip(1).skip(1)[0]);
        assert(t.skip(1).skip(1).skip(1)[0] == s.skip(1).skip(1).skip(1)[0]);
    }
    low as u64 + 0x1_0000_0000 * high as u64
}

/// The bytes of `v` as a fixed-size array.
pub fn to_array<const N: usize>(v: &Vec<u8>) -> (a: [u8; N])
    requires
        v@.len() == N,
    ensures
        a@ == v@,
{
    let mut a: [u8; N] = vstd::array::array_fill_for_copy_types(0u8);
    let mut i: usize = 0;
    while i < N
        invariant
            i <= N,
            v@.len() == N,
            forall|j: int| 0 <= j < i ==> a@[j] == v@[j],
        decreases N - i,
    {
        a[i] = v[i];
        i += 1;
    }
    assert(a@ =~= v@);
    a
}

/// An owned copy of the bytes of `s`.
pub fn copy_bytes(s: &[u8]) -> (v: Vec<u8>)
    ensures
        v@ == s@,
{
    let mut v: Vec<u8> = Vec::new();
    v.extend_from_slice(s);
    assert(v@ =~= s@);
    v
}

/// Whether two byte strings are equal.
pub fn same_bytes(a: &[u8], b: &[u8]) -> (r: bool)
    ensures
        r == (a@ == b@),
{
    if a.len() != b.len() {
        return false;
    }
    let mut i: usize = 0;
    while i < a.len()
        invariant
            i <= a@.len() == b@.len(),
            forall|j: int| 0 <= j < i ==> a@[j] == b@[j],
        decreases a@.len() - i,
    {
        if a[i] != b[i] {
            return false;
        }
        i += 1;
    }
    assert(a@ =~= b@);
    true
}

} // verus!
