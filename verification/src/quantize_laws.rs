//! What quantization means for the values of a tensor.

use crate::bytes::{le_value, lemma_le_value_digit};
use crate::quantize::{
    depth_of, law_steps_are_recoverable, lemma_packed_beyond, level_of, packed, quantized,
    stored_dtype, QuantLevel, ScaledValues,
};
use crate::schema::DType;
use crate::text::{lower_char, occurs, occurs_at};
use vstd::arithmetic::power2::{lemma2_to64, pow2};
use vstd::prelude::*;
use vstd::string::*;

verus! {

/// Whether a character reads as a lower-case one, in either case.
pub open spec fn reads_as(c: char, w: char) -> bool {
    c == w || ('A' <= c <= 'Z' && c as int + 32 == w as int)
}

/// Whether a lower-case word stands in a name, letter by letter and in either case.
pub open spec fn has_word(name: Seq<char>, word: Seq<char>) -> bool {
    exists|i: int| #[trigger] word_stands_at(name, word, i)
}

/// Whether a lower-case word stands in a name from position `i` on.
pub open spec fn word_stands_at(name: Seq<char>, word: Seq<char>, i: int) -> bool {
    &&& 0 <= i
    &&& i + word.len() <= name.len()
    &&& forall|k: int| 0 <= k < word.len() ==> reads_as(name[i + k], #[trigger] word[k])
}

proof fn lemma_word_occurs(name: Seq<char>, word: Seq<char>)
    requires
        forall|k: int| 0 <= k < word.len() ==> !('A' <= #[trigger] word[k] <= 'Z'),
    ensures
        occurs(name.map_values(|c: char| lower_char(c)), word) == has_word(name, word),
{
    let lower = name.map_values(|c: char| lower_char(c));
    assert forall|i: int| #[trigger] occurs_at(lower, word, i) implies word_stands_at(
        name,
        word,
        i,
    ) by {
        assert forall|k: int| 0 <= k < word.len() implies reads_as(
            name[i + k],
            #[trigger] word[k],
        ) by {
            assert(lower.subrange(i, i + word.len())[k] == lower[i + k]);
            assert(lower_char(name[i + k]) == word[k]);
        }
    }
    assert forall|i: int| #[trigger] word_stands_at(name, word, i) implies occurs_at(
        lower,
        word,
        i,
    ) by {
        let part = lower.subrange(i, i + word.len());
        assert forall|k: int| 0 <= k < word.len() implies part[k] == #[trigger] word[k] by {
            let c = name[i + k];
            assert(reads_as(c, word[k]));
            assert(lower[i + k] == lower_char(c));
            if 'A' <= c <= 'Z' {
                assert((c as u32 + 32) as char == word[k]);
            }
        }
        assert(part =~= word);
    }
    if has_word(name, word) {
        let i = choose|i: int| #[trigger] word_stands_at(name, word, i);
        assert(occurs_at(lower, word, i));
    }
    if occurs(lower, word) {
        let i = choose|i: int| #[trigger] occurs_at(lower, word, i);
        assert(word_stands_at(name, word, i));
    }
}

/// The level of a tensor is decided by the words in its name, in either case: Q8 for attention
/// weights, else Q2 for feed-forward gates and down projections, else Q4 for embeddings, and
/// Q4_K_M for every other name.
pub proof fn law_name_decides_level(name: Seq<char>)
    ensures
        has_word(name, "attention_weight"@) <==> level_of(name) == QuantLevel::Q8,
        (!has_word(name, "attention_weight"@) && (has_word(name, "ffn_gate"@) || has_word(
            name,
            "ffn_down"@,
        ))) <==> level_of(name) == QuantLevel::Q2,
        (!has_word(name, "attention_weight"@) && !has_word(name, "ffn_gate"@) && !has_word(
            name,
            "ffn_down"@,
        ) && has_word(name, "embedding"@)) <==> level_of(name) == QuantLevel::Q4,
        (!has_word(name, "attention_weight"@) && !has_word(name, "ffn_gate"@) && !has_word(
            name,
            "ffn_down"@,
        ) && !has_word(name, "embedding"@)) <==> level_of(name) == QuantLevel::Q4_K_M,
{
    reveal_strlit("attention_weight");
    reveal_strlit("ffn_gate");
    reveal_strlit("ffn_down");
    reveal_strlit("embedding");
    lemma_word_occurs(name, "attention_weight"@);
    lemma_word_occurs(name, "ffn_gate"@);
    lemma_word_occurs(name, "ffn_down"@);
    lemma_word_occurs(name, "embedding"@);
}

/// Letter case does not matter to the level, and neither does what stands around the word that
/// decides it first.
pub proof fn law_attention_weights_are_kept_best(before: Seq<char>, after: Seq<char>)
    ensures
        level_of(before + "attention_weight"@ + after) == QuantLevel::Q8,
        level_of(before + "ATTENTION_WEIGHT"@ + after) == QuantLevel::Q8,
        level_of(before + "Attention_Weight"@ + after) == QuantLevel::Q8,
{
    reveal_strlit("attention_weight");
    reveal_strlit("ATTENTION_WEIGHT");
    reveal_strlit("Attention_Weight");
    let word = "attention_weight"@;
    let at = before.len() as int;
    assert(word_stands_at(before + word + after, word, at));
    assert(word_stands_at(before + "ATTENTION_WEIGHT"@ + after, word, at));
    assert(word_stands_at(before + "Attention_Weight"@ + after, word, at));
    law_name_decides_level(before + word + after);
    law_name_decides_level(before + "ATTENTION_WEIGHT"@ + after);
    law_name_decides_level(before + "Attention_Weight"@ + after);
}

/// A value takes eight bits at level Q8, four at Q4 and Q4_K_M, two at Q2, and the payload is
/// announced as Q8_0, Q4_0, Q4K and the custom type 2.
pub proof fn law_level_decides_width_and_type()
    ensures
        depth_of(QuantLevel::Q8) == 8,
        depth_of(QuantLevel::Q4) == 4,
        depth_of(QuantLevel::Q4_K_M) == 4,
        depth_of(QuantLevel::Q2) == 2,
        stored_dtype(QuantLevel::Q8) == DType::Q8_0,
        stored_dtype(QuantLevel::Q4) == DType::Q4_0,
        stored_dtype(QuantLevel::Q4_K_M) == DType::Q4K,
        stored_dtype(QuantLevel::Q2) == DType::Custom(2),
{
}

/// The payload of a tensor of 32-bit floats whose name has `attention_weight` in it has one byte
/// for each value: the step of that value.
pub proof fn law_eight_bit_values_are_bytes(name: Seq<char>, payload: Seq<u8>, steps: Vec<u32>)
    requires
        has_word(name, "attention_weight"@),
        payload.len() % 4 == 0,
        steps@.len() == payload.len() / 4,
        forall|k: int| 0 <= k < steps@.len() ==> (#[trigger] steps@[k]) < 256,
    ensures
        ({
            let out = quantized(payload, depth_of(level_of(name)), ScaledValues::Steps(steps));
            &&& out.len() == steps@.len()
            &&& forall|i: int| 0 <= i < steps@.len() ==> #[trigger] out[i] == steps@[i]
        }),
{
    law_name_decides_level(name);
    law_level_decides_width_and_type();
    lemma2_to64();
    let out = packed(steps@, 8);
    assert(out.len() == steps@.len()) by {
        lemma_packed_beyond(steps@, 8, steps@.len());
        assert(steps@.len() * 8 == 8 * steps@.len()) by (nonlinear_arith);
    }
    assert forall|i: int| 0 <= i < steps@.len() implies #[trigger] out[i] == steps@[i] by {
        law_steps_are_recoverable(steps@, 8, i);
        lemma_le_value_digit(out, i as nat);
        assert(8 * (i as nat) == (i as nat) * 8) by (nonlinear_arith);
    }
}

/// The payload of a tensor of 32-bit floats at level Q4 or Q4_K_M has one byte for two values:
/// the step of the former in the low four bits, that of the latter, if there is one, in the high
/// four bits.
pub proof fn law_four_bit_values_are_nibbles(name: Seq<char>, payload: Seq<u8>, steps: Vec<u32>)
    requires
        !has_word(name, "attention_weight"@),
        !has_word(name, "ffn_gate"@),
        !has_word(name, "ffn_down"@),
        payload.len() % 4 == 0,
        steps@.len() == payload.len() / 4,
        forall|k: int| 0 <= k < steps@.len() ==> (#[trigger] steps@[k]) < 16,
    ensures
        ({
            let out = quantized(payload, depth_of(level_of(name)), ScaledValues::Steps(steps));
            &&& out.len() == (steps@.len() + 1) / 2
            &&& forall|j: int|
                0 <= j < out.len() ==> #[trigger] out[j] == steps@[2 * j] + (if 2 * j + 1
                    < steps@.len() {
                    16 * steps@[2 * j + 1]
                } else {
                    0
                })
        }),
{
    law_name_decides_level(name);
    law_level_decides_width_and_type();
    lemma2_to64();
    let n = steps@.len();
    let out = packed(steps@, 4);
    assert(out.len() == (n + 1) / 2) by {
        lemma_packed_beyond(steps@, 4, n);
        assert(n * 4 == 4 * n) by (nonlinear_arith);
    }
    assert forall|j: int| 0 <= j < out.len() implies #[trigger] out[j] == steps@[2 * j] + (if 2 * j
        + 1 < n {
        16 * steps@[2 * j + 1]
    } else {
        0
    }) by {
        lemma_le_value_digit(out, j as nat);
        let v = le_value(out);
        let m = j as nat;
        assert(8 * m == 4 * (2 * m)) by (nonlinear_arith);
        law_steps_are_recoverable(steps@, 4, 2 * j);
        lemma_next_digit(v, 4, 2 * m);
        let x = (v / pow2(8 * m)) as int;
        assert(x % 256 == x % 16 + 16 * ((x / 16) % 16)) by (nonlinear_arith);
        if 2 * j + 1 < n {
            law_steps_are_recoverable(steps@, 4, 2 * j + 1);
        } else {
            lemma_packed_beyond(steps@, 4, (2 * j + 1) as nat);
        }
    }
}

/// The payload of a tensor of 32-bit floats at level Q2 has one byte for four values, the first in
/// the lowest two bits.
pub proof fn law_two_bit_values_are_quarters(name: Seq<char>, payload: Seq<u8>, steps: Vec<u32>)
    requires
        !has_word(name, "attention_weight"@),
        has_word(name, "ffn_gate"@) || has_word(name, "ffn_down"@),
        payload.len() % 4 == 0,
        steps@.len() == payload.len() / 4,
        forall|k: int| 0 <= k < steps@.len() ==> (#[trigger] steps@[k]) < 4,
    ensures
        ({
            let out = quantized(payload, depth_of(level_of(name)), ScaledValues::Steps(steps));
            let step = |i: int|
                if i < steps@.len() {
                    steps@[i] as int
                } else {
                    0
                };
            &&& out.len() == (steps@.len() + 3) / 4
            &&& forall|j: int|
                0 <= j < out.len() ==> #[trigger] out[j] == step(4 * j) + 4 * step(4 * j + 1) + 16
                    * step(4 * j + 2) + 64 * step(4 * j + 3)
        }),
{
    law_name_decides_level(name);
    law_level_decides_width_and_type();
    lemma2_to64();
    let n = steps@.len();
    let out = packed(steps@, 2);
    let step = |i: int|
        if i < n {
            steps@[i] as int
        } else {
            0
        };
    assert(out.len() == (n + 3) / 4) by {
        lemma_packed_beyond(steps@, 2, n);
        assert(n * 2 == 2 * n) by (nonlinear_arith);
    }
    assert forall|j: int| 0 <= j < out.len() implies #[trigger] out[j] == step(4 * j) + 4 * step(
        4 * j + 1,
    ) + 16 * step(4 * j + 2) + 64 * step(4 * j + 3) by {
        lemma_le_value_digit(out, j as nat);
        let v = le_value(out);
        let m = j as nat;
        assert(8 * m == 2 * (4 * m)) by (nonlinear_arith);
        lemma_next_digit(v, 2, 4 * m);
        lemma_next_digit(v, 2, 4 * m + 1);
        lemma_next_digit(v, 2, 4 * m + 2);
        let x = (v / pow2(8 * m)) as int;
        let a = x / 4;
        let b = a / 4;
        let c = b / 4;
        assert(x % 256 == x % 4 + 4 * (a % 4) + 16 * (b % 4) + 64 * (c % 4)) by (nonlinear_arith)
            requires
                a == x / 4,
                b == a / 4,
                c == b / 4,
        ;
        lemma_step_or_nothing(steps@, 2, 4 * j);
        lemma_step_or_nothing(steps@, 2, 4 * j + 1);
        lemma_step_or_nothing(steps@, 2, 4 * j + 2);
        lemma_step_or_nothing(steps@, 2, 4 * j + 3);
    }
}

proof fn lemma_step_or_nothing(steps: Seq<u32>, depth: nat, i: int)
    requires
        depth > 0,
        0 <= i,
        forall|k: int| 0 <= k < steps.len() ==> (#[trigger] steps[k]) < pow2(depth),
    ensures
        (le_value(packed(steps, depth)) / pow2(depth * (i as nat)) % pow2(depth)) as int == (if i
            < steps.len() {
            steps[i] as int
        } else {
            0
        }),
{
    if i < steps.len() {
        law_steps_are_recoverable(steps, depth, i);
    } else {
        lemma_packed_beyond(steps, depth, i as nat);
        vstd::arithmetic::power2::lemma_pow2_pos(depth);
        vstd::arithmetic::div_mod::lemma_small_mod(0, pow2(depth));
    }
}

proof fn lemma_next_digit(v: nat, depth: nat, i: nat)
    ensures
        v / pow2(depth * (i + 1)) == (v / pow2(depth * i)) / pow2(depth),
{
    vstd::arithmetic::power2::lemma_pow2_pos(depth);
    vstd::arithmetic::power2::lemma_pow2_pos(depth * i);
    vstd::arithmetic::power2::lemma_pow2_adds(depth * i, depth);
    assert(depth * i + depth == depth * (i + 1)) by (nonlinear_arith);
    vstd::arithmetic::div_mod::lemma_div_denominator(
        v as int,
        pow2(depth * i) as int,
        pow2(depth) as int,
    );
}

/// A tensor whose values do not spread becomes one zero byte for each value, and a payload that is
/// no whole number of floats stays as it is, at every level.
pub proof fn law_flat_and_ragged_payloads(name: Seq<char>, payload: Seq<u8>, scaled: ScaledValues)
    ensures
        payload.len() % 4 == 0 && scaled is Constant ==> ({
            let out = quantized(payload, depth_of(level_of(name)), scaled);
            &&& 4 * out.len() == payload.len()
            &&& forall|i: int| 0 <= i < out.len() ==> #[trigger] out[i] == 0
        }),
        payload.len() % 4 != 0 ==> quantized(payload, depth_of(level_of(name)), scaled) == payload,
{
    law_level_decides_width_and_type();
}

} // verus!
