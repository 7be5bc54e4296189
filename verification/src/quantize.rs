//! Choice of quantization levels and packing of quantized values.

use crate::bytes::{
    copy_bytes, le_bytes, le_value, lemma_le_bytes_len, lemma_le_bytes_of_le_value,
    lemma_le_value_of_le_bytes, lemma_le_value_push,
};
use crate::name_map::NameMap;
use crate::schema::DType;
use crate::text::{contains_chars, lower_char, lower_chars_of, occurs};
use vstd::arithmetic::div_mod::{
    lemma_basic_div, lemma_fundamental_div_mod, lemma_fundamental_div_mod_converse, lemma_mod_bound,
    lemma_mod_multiples_vanish, lemma_small_mod,
};
use vstd::arithmetic::power::{lemma_pow_multiplies, pow};
use vstd::arithmetic::power2::{
    lemma2_to64, lemma_pow2, lemma_pow2_adds, lemma_pow2_pos, lemma_pow2_strictly_increases, pow2,
};
use vstd::bits::lemma_u32_shl_is_mul;
use vstd::prelude::*;

verus! {

/// Quantization levels used by the adaptive quantizer.
#[allow(non_camel_case_types)]
#[derive(Debug, Clone, Copy, PartialEq, Eq, Structural)]
pub enum QuantLevel {
    Q8,
    Q4,
    Q2,
    Q4_K_M,
}

/// The values of a tensor scaled to the steps of a bit depth.
#[derive(Debug)]
pub enum ScaledValues {
    /// The tensor is empty or its values do not spread.
    Constant,
    /// One step per value, from zero for the smallest to all ones for the largest.
    Steps(Vec<u32>),
}

/// Helper that picks a quantization level by tensor name.
pub struct AdaptiveQuantizer;

/// The level for a tensor name; letter case does not matter.
pub open spec fn level_of(name: Seq<char>) -> QuantLevel {
    let lower = name.map_values(|c: char| lower_char(c));
    if occurs(lower, "attention_weight"@) {
        QuantLevel::Q8
    } else if occurs(lower, "ffn_gate"@) || occurs(lower, "ffn_down"@) {
        QuantLevel::Q2
    } else if occurs(lower, "embedding"@) {
        QuantLevel::Q4
    } else {
        QuantLevel::Q4_K_M
    }
}

/// Bits per value at a level.
pub open spec fn depth_of(level: QuantLevel) -> nat {
    match level {
        QuantLevel::Q8 => 8,
        QuantLevel::Q4 => 4,
        QuantLevel::Q2 => 2,
        QuantLevel::Q4_K_M => 4,
    }
}

/// Element type announced for a payload of a level.
pub open spec fn stored_dtype(level: QuantLevel) -> DType {
    match level {
        QuantLevel::Q8 => DType::Q8_0,
        QuantLevel::Q4 => DType::Q4_0,
        QuantLevel::Q2 => DType::Custom(2),
        QuantLevel::Q4_K_M => DType::Q4K,
    }
}

/// The number whose base-`2^depth` digits are `steps`, least significant first.
pub open spec fn steps_value(steps: Seq<u32>, depth: nat) -> nat
    decreases steps.len(),
{
    if steps.len() == 0 {
        0
    } else {
        steps_value(steps.drop_last(), depth) + steps.last() as nat * pow2(
            depth * (steps.len() - 1) as nat,
        )
    }
}

/// Bytes that `count` values of `depth` bits take.
pub open spec fn packed_len(count: nat, depth: nat) -> nat {
    (count * depth + 7) / 8
}

/// Steps packed without gaps, low bits first.
pub open spec fn packed(steps: Seq<u32>, depth: nat) -> Seq<u8> {
    le_bytes(steps_value(steps, depth), packed_len(steps.len(), depth))
}

/// Whether `scaled` is a scaling of `count` values to `depth` bits.
pub open spec fn scaling_fits(scaled: ScaledValues, count: nat, depth: nat) -> bool {
    match scaled {
        ScaledValues::Constant => true,
        ScaledValues::Steps(steps) => steps@.len() == count && forall|i: int|
            0 <= i < steps@.len() ==> (#[trigger] steps@[i]) < pow2(depth),
    }
}

/// The quantized form of a payload of 32-bit floats.
pub open spec fn quantized(input: Seq<u8>, depth: nat, scaled: ScaledValues) -> Seq<u8> {
    if input.len() % 4 != 0 || depth == 0 {
        input
    } else {
        match scaled {
            ScaledValues::Constant => Seq::new(input.len() / 4, |i: int| 0u8),
            ScaledValues::Steps(steps) => packed(steps@, depth),
        }
    }
}

proof fn lemma_pow256(k: nat)
    ensures
        pow(256, k) == pow2(8 * k),
{
    lemma2_to64();
    lemma_pow2(8);
    lemma_pow2(8 * k);
    lemma_pow_multiplies(2, 8, k);
}

/// Moving the low byte of the buffer to the output keeps the number held by both.
proof fn lemma_flush_byte(out: Seq<u8>, buffer: nat, count: nat)
    requires
        count >= 8,
        buffer < pow2(count),
    ensures
        le_value(out.push((buffer % 256) as u8)) + (buffer / 256) * pow2(8 * (out.len() + 1))
            == le_value(out) + buffer * pow2(8 * out.len()),
        buffer / 256 < pow2((count - 8) as nat),
{
    lemma_le_value_push(out, (buffer % 256) as u8);
    lemma_pow256(out.len());
    lemma2_to64();
    lemma_pow2_adds(8, 8 * out.len());
    lemma_pow2_adds(8, (count - 8) as nat);
    let p = pow2(8 * out.len());
    let q = buffer / 256;
    let r = buffer % 256;
    assert(8 + 8 * out.len() == 8 * (out.len() + 1));
    assert(pow2(8 * (out.len() + 1)) == 256 * p);
    assert(r * p + q * (256 * p) == (r + 256 * q) * p) by (nonlinear_arith);
    assert(buffer == r + 256 * q);
    assert(q < pow2((count - 8) as nat)) by (nonlinear_arith)
        requires
            256 * q <= buffer,
            buffer < 256 * pow2((count - 8) as nat),
    ;
}

/// Putting one step above the bits of the buffer adds its digit to the number held.
proof fn lemma_add_step(steps: Seq<u32>, depth: nat, held: nat, out_len: nat, buffer: nat, count: nat)
    requires
        steps.len() > 0,
        steps.last() < pow2(depth),
        held + buffer * pow2(8 * out_len) == steps_value(steps.drop_last(), depth),
        8 * out_len + count == depth * (steps.len() - 1),
        buffer < pow2(count),
    ensures
        held + (buffer + steps.last() as nat * pow2(count)) * pow2(8 * out_len) == steps_value(
            steps,
            depth,
        ),
        buffer + steps.last() as nat * pow2(count) < pow2(count + depth),
{
    let s = steps.last() as nat;
    let a = pow2(count);
    let b = pow2(8 * out_len);
    lemma_pow2_adds(count, 8 * out_len);
    lemma_pow2_adds(count, depth);
    assert(count + 8 * out_len == depth * (steps.len() - 1) as nat);
    assert((buffer + s * a) * b == buffer * b + s * (a * b)) by (nonlinear_arith);
    assert(buffer + s * a < a * pow2(depth)) by (nonlinear_arith)
        requires
            buffer < a,
            s + 1 <= pow2(depth),
    ;
}

fn pack_steps(steps: &Vec<u32>, depth: usize) -> (out: Vec<u8>)
    requires
        0 < depth <= 24,
        forall|i: int| 0 <= i < steps@.len() ==> (#[trigger] steps@[i]) < pow2(depth as nat),
    ensures
        out@ == packed(steps@, depth as nat),
{
    let mut out: Vec<u8> = Vec::new();
    let mut bit_buffer: u32 = 0;
    let mut bit_count: u32 = 0;
    let mut i: usize = 0;
    proof {
        lemma2_to64();
        assert(steps@.take(0) =~= Seq::<u32>::empty());
        assert(steps_value(steps@.take(0), depth as nat) == 0);
        assert(depth * 0 == 0) by (nonlinear_arith);
    }
    while i < steps.len()
        invariant
            i <= steps@.len(),
            0 < depth <= 24,
            bit_count < 8,
            bit_buffer < pow2(bit_count as nat),
            8 * out@.len() + bit_count == depth * i,
            le_value(out@) + bit_buffer * pow2(8 * out@.len()) == steps_value(
                steps@.take(i as int),
                depth as nat,
            ),
            forall|k: int| 0 <= k < steps@.len() ==> (#[trigger] steps@[k]) < pow2(depth as nat),
        decreases steps@.len() - i,
    {
        let step: u32 = steps[i];
        let ghost now = steps@.take(i + 1);
        proof {
            assert(now.drop_last() =~= steps@.take(i as int));
            assert(now.last() == step);
            lemma_add_step(
                now,
                depth as nat,
                le_value(out@),
                out@.len(),
                bit_buffer as nat,
                bit_count as nat,
            );
            lemma2_to64();
            if bit_count + depth < 31 {
                lemma_pow2_strictly_increases((bit_count + depth) as nat, 31);
            }
            lemma_pow2_pos(bit_count as nat);
            assert(step * pow2(bit_count as nat) >= 0) by (nonlinear_arith);
            assert(pow2(31) == 0x8000_0000);
            lemma_u32_shl_is_mul(step, bit_count);
            assert(depth * (i + 1) == depth * i + depth) by (nonlinear_arith);
        }
        bit_buffer = bit_buffer + (step << bit_count);
        bit_count = bit_count + depth as u32;
        while bit_count >= 8
            invariant
                bit_count <= 31,
                bit_buffer < pow2(bit_count as nat),
                8 * out@.len() + bit_count == depth * (i + 1),
                le_value(out@) + bit_buffer * pow2(8 * out@.len()) == steps_value(now, depth as nat),
            decreases bit_count,
        {
            proof {
                lemma_flush_byte(out@, bit_buffer as nat, bit_count as nat);
            }
            out.push((bit_buffer % 256) as u8);
            bit_buffer = bit_buffer / 256;
            bit_count = bit_count - 8;
        }
        i += 1;
    }
    assert(steps@.take(i as int) =~= steps@);
    let ghost before = out@;
    let ghost count = bit_count;
    let ghost held = bit_buffer;
    if bit_count > 0 {
        proof {
            lemma2_to64();
            lemma_pow2_strictly_increases(bit_count as nat, 8);
            lemma_le_value_push(out@, bit_buffer as u8);
            lemma_pow256(out@.len());
        }
        out.push(bit_buffer as u8);
    }
    proof {
        lemma2_to64();
        if count == 0 {
            assert(held == 0);
            assert(held * pow2(8 * before.len()) == 0) by (nonlinear_arith)
                requires
                    held == 0,
            ;
        }
        assert(le_value(out@) == steps_value(steps@, depth as nat));
        assert(steps@.len() * depth == depth * steps@.len()) by (nonlinear_arith);
        assert(out@.len() == packed_len(steps@.len(), depth as nat));
        lemma_le_bytes_of_le_value(out@);
    }
    out
}

/// Quantize a payload of 32-bit floats, given its values scaled to `bit_depth` bits.
///
/// A payload that is no whole number of floats, or a depth of zero, leaves it unchanged.
pub fn quantize_f32(input: &[u8], bit_depth: usize, scaled: &ScaledValues) -> (out: Vec<u8>)
    requires
        input@.len() % 4 == 0 && bit_depth > 0 ==> scaling_fits(
            *scaled,
            input@.len() / 4,
            bit_depth as nat,
        ) && (scaled is Steps ==> bit_depth <= 24),
    ensures
        out@ == quantized(input@, bit_depth as nat, *scaled),
{
    if input.len() % 4 != 0 || bit_depth == 0 {
        return copy_bytes(input);
    }
    match scaled {
        ScaledValues::Constant => {
            let mut out: Vec<u8> = Vec::new();
            out.resize(input.len() / 4, 0u8);
            assert(out@ =~= Seq::new(input@.len() / 4, |i: int| 0u8));
            out
        },
        ScaledValues::Steps(steps) => pack_steps(steps, bit_depth),
    }
}

impl AdaptiveQuantizer {
    /// Assign a quantization level based on a tensor's name.
    pub fn assign_quant_level(name: &str) -> (level: QuantLevel)
        ensures
            level == level_of(name@),
    {
        let lower: Vec<char> = lower_chars_of(name);
        if contains_chars(&lower, "attention_weight") {
            QuantLevel::Q8
        } else if contains_chars(&lower, "ffn_gate") || contains_chars(&lower, "ffn_down") {
            QuantLevel::Q2
        } else if contains_chars(&lower, "embedding") {
            QuantLevel::Q4
        } else {
            QuantLevel::Q4_K_M
        }
    }

    /// Bits per value at a level.
    pub fn bit_depth(level: QuantLevel) -> (depth: usize)
        ensures
            depth == depth_of(level),
            0 < depth <= 8,
            level is Q8 ==> depth == 8,
            level is Q4 || level is Q4_K_M ==> depth == 4,
            level is Q2 ==> depth == 2,
    {
        match level {
            QuantLevel::Q8 => 8,
            QuantLevel::Q4 => 4,
            QuantLevel::Q2 => 2,
            QuantLevel::Q4_K_M => 4,
        }
    }

    /// Quantize a payload for a given tensor name and input type.
    ///
    /// `scaled` holds the values of the payload scaled to the depth of the tensor's level; it
    /// is looked at for 32-bit floats only.
    pub fn quantize_tensor(name: &str, dtype: DType, payload: &[u8], scaled: &ScaledValues) -> (r: (
        DType,
        Vec<u8>,
        QuantLevel,
    ))
        requires
            dtype == DType::F32 && payload@.len() % 4 == 0 ==> scaling_fits(
                *scaled,
                payload@.len() / 4,
                depth_of(level_of(name@)),
            ),
        ensures
            r.0 == stored_dtype(level_of(name@)),
            r.1@ == (if dtype == DType::F32 {
                quantized(payload@, depth_of(level_of(name@)), *scaled)
            } else {
                payload@
            }),
            r.2 == level_of(name@),
    {
        let level: QuantLevel = Self::assign_quant_level(name);
        let data: Vec<u8> = if dtype == DType::F32 {
            quantize_f32(payload, Self::bit_depth(level), scaled)
        } else {
            copy_bytes(payload)
        };
        let output_dtype: DType = match level {
            QuantLevel::Q8 => DType::Q8_0,
            QuantLevel::Q4 => DType::Q4_0,
            QuantLevel::Q2 => DType::Custom(2),
            QuantLevel::Q4_K_M => DType::Q4K,
        };
        (output_dtype, data, level)
    }

    /// Build a lookup map of the levels of the given tensor names.
    pub fn build_quant_map(tensor_names: &[String]) -> (m: NameMap<QuantLevel>)
        ensures
            forall|k: Seq<char>| #[trigger]
                m@.contains_key(k) <==> exists|i: int|
                    0 <= i < tensor_names@.len() && (#[trigger] tensor_names@[i])@ == k,
            forall|k: Seq<char>| #[trigger] m@.contains_key(k) ==> m@[k] == level_of(k),
    {
        let mut m: NameMap<QuantLevel> = NameMap::new();
        let mut i: usize = 0;
        while i < tensor_names.len()
            invariant
                i <= tensor_names@.len(),
                forall|k: Seq<char>| #[trigger]
                    m@.contains_key(k) <==> exists|j: int|
                        0 <= j < i && (#[trigger] tensor_names@[j])@ == k,
                forall|k: Seq<char>| #[trigger] m@.contains_key(k) ==> m@[k] == level_of(k),
            decreases tensor_names@.len() - i,
        {
            let level: QuantLevel = Self::assign_quant_level(tensor_names[i].as_str());
            let ghost before = m@;
            m.insert(tensor_names[i].clone(), level);
            proof {
                let added = tensor_names@[i as int]@;
                assert forall|k: Seq<char>| #[trigger]
                    m@.contains_key(k) <==> exists|j: int|
                        0 <= j < i + 1 && (#[trigger] tensor_names@[j])@ == k by {
                    if m@.contains_key(k) {
                        if k == added {
                            assert(tensor_names@[i as int]@ == k);
                        } else {
                            assert(before.contains_key(k));
                            let j = choose|j: int| 0 <= j < i && (#[trigger] tensor_names@[j])@ == k;
                            assert(tensor_names@[j]@ == k);
                        }
                    }
                    if exists|j: int| 0 <= j < i + 1 && (#[trigger] tensor_names@[j])@ == k {
                        let j = choose|j: int|
                            0 <= j < i + 1 && (#[trigger] tensor_names@[j])@ == k;
                        if j < i {
                            assert(before.contains_key(k));
                        }
                    }
                }
            }
            i += 1;
        }
        m
    }
}

proof fn lemma_steps_value_bound(steps: Seq<u32>, depth: nat)
    requires
        forall|k: int| 0 <= k < steps.len() ==> (#[trigger] steps[k]) < pow2(depth),
    ensures
        steps_value(steps, depth) < pow2(depth * steps.len()),
    decreases steps.len(),
{
    if steps.len() == 0 {
        assert(depth * 0 == 0) by (nonlinear_arith);
        lemma2_to64();
    } else {
        let t = steps.drop_last();
        assert forall|k: int| 0 <= k < t.len() implies (#[trigger] t[k]) < pow2(depth) by {
            assert(t[k] == steps[k]);
        }
        lemma_steps_value_bound(t, depth);
        let p = pow2(depth * t.len());
        lemma_pow2_adds(depth * t.len(), depth);
        assert(depth * t.len() + depth == depth * steps.len()) by (nonlinear_arith)
            requires
                t.len() + 1 == steps.len(),
        ;
        let last = steps.last() as nat;
        assert(last < pow2(depth)) by {
            assert(steps[steps.len() - 1] < pow2(depth));
        }
        assert(steps_value(t, depth) + last * p < p * pow2(depth)) by (nonlinear_arith)
            requires
                steps_value(t, depth) < p,
                last + 1 <= pow2(depth),
        ;
    }
}

proof fn lemma_step_digit(steps: Seq<u32>, depth: nat, i: int)
    requires
        forall|k: int| 0 <= k < steps.len() ==> (#[trigger] steps[k]) < pow2(depth),
        0 <= i < steps.len(),
    ensures
        steps_value(steps, depth) / pow2(depth * (i as nat)) % pow2(depth) == steps[i],
    decreases steps.len(),
{
    let t = steps.drop_last();
    assert forall|k: int| 0 <= k < t.len() implies (#[trigger] t[k]) < pow2(depth) by {
        assert(t[k] == steps[k]);
    }
    lemma_steps_value_bound(t, depth);
    let low = steps_value(t, depth);
    let last = steps.last() as nat;
    let p = pow2(depth * t.len());
    let v = steps_value(steps, depth);
    lemma_pow2_pos(depth * t.len());
    lemma_pow2_pos(depth);
    assert(v == low + last * p);
    if i == t.len() {
        assert(v / p == last) by (nonlinear_arith)
            requires
                v == low + last * p,
                0 <= low < p,
        ;
        assert(last == steps[i]);
        lemma_small_mod(last, pow2(depth));
    } else {
        lemma_step_digit(t, depth, i);
        let at = i as nat;
        let q = pow2(depth * at);
        let d = pow2(depth);
        let rest = (t.len() - i - 1) as nat;
        let k = pow2(depth * rest);
        lemma_pow2_pos(depth * at);
        lemma_pow2_adds(depth * at, depth);
        lemma_pow2_adds(depth * at + depth, depth * rest);
        assert(depth * at + depth + depth * rest == depth * t.len()) by (nonlinear_arith)
            requires
                at + 1 + rest == t.len(),
        ;
        assert(p == q * d * k);
        let m = last * k;
        assert(v == low + q * (m * d)) by (nonlinear_arith)
            requires
                v == low + last * p,
                p == q * d * k,
                m == last * k,
        ;
        lemma_div_of_sum(low, q, m * d);
        lemma_mod_multiples_vanish(m as int, (low / q) as int, d as int);
        assert(m * d == d * m) by (nonlinear_arith);
        assert(d * m + low / q == low / q + m * d);
        assert(t[i] == steps[i]);
    }
}

proof fn lemma_div_of_sum(low: nat, q: nat, x: nat)
    requires
        q > 0,
    ensures
        (low + q * x) / q == low / q + x,
{
    let a = low / q;
    let r = low % q;
    lemma_fundamental_div_mod(low as int, q as int);
    lemma_mod_bound(low as int, q as int);
    assert(0 <= r < q);
    let sum = low + q * x;
    assert(sum == (a + x) * q + r) by (nonlinear_arith)
        requires
            low == q * a + r,
            sum == low + q * x,
    ;
    lemma_fundamental_div_mod_converse(sum as int, q as int, (a + x) as int, r as int);
}

/// Packed steps have no digits behind the last step, and take the room of their bits.
pub proof fn lemma_packed_beyond(steps: Seq<u32>, depth: nat, i: nat)
    requires
        depth > 0,
        forall|k: int| 0 <= k < steps.len() ==> (#[trigger] steps[k]) < pow2(depth),
        i >= steps.len(),
    ensures
        packed(steps, depth).len() == (steps.len() * depth + 7) / 8,
        le_value(packed(steps, depth)) / pow2(depth * i) == 0,
{
    lemma_steps_value_bound(steps, depth);
    let width = packed_len(steps.len(), depth);
    lemma_le_bytes_len(steps_value(steps, depth), width);
    lemma_pow256(width);
    assert(depth * steps.len() == steps.len() * depth) by (nonlinear_arith);
    if depth * steps.len() < 8 * width {
        lemma_pow2_strictly_increases(depth * steps.len(), 8 * width);
    }
    lemma_le_value_of_le_bytes(steps_value(steps, depth), width);
    assert(depth * steps.len() <= depth * i) by (nonlinear_arith)
        requires
            steps.len() <= i,
    ;
    if depth * steps.len() < depth * i {
        lemma_pow2_strictly_increases(depth * steps.len(), depth * i);
    }
    lemma_basic_div(steps_value(steps, depth) as int, pow2(depth * i) as int);
}

/// No step is lost in packing: the packed bytes, read as one number, have the steps as their
/// digits.
pub proof fn law_steps_are_recoverable(steps: Seq<u32>, depth: nat, i: int)
    requires
        depth > 0,
        forall|k: int| 0 <= k < steps.len() ==> (#[trigger] steps[k]) < pow2(depth),
        0 <= i < steps.len(),
    ensures
        le_value(packed(steps, depth)) / pow2(depth * (i as nat)) % pow2(depth) == steps[i],
{
    lemma_steps_value_bound(steps, depth);
    let width = packed_len(steps.len(), depth);
    lemma_pow256(width);
    assert(depth * steps.len() == steps.len() * depth) by (nonlinear_arith);
    assert(depth * steps.len() <= 8 * width);
    if depth * steps.len() < 8 * width {
        lemma_pow2_strictly_increases(depth * steps.len(), 8 * width);
    }
    lemma_le_value_of_le_bytes(steps_value(steps, depth), width);
    lemma_step_digit(steps, depth, i);
}

} // verus!
