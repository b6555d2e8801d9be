//! The integer mixer that every word of the scratch comes from.
use vstd::arithmetic::div_mod::{lemma_mod_multiples_vanish, lemma_mul_mod_noop_left};
use vstd::arithmetic::mul::lemma_mul_is_associative;
use vstd::prelude::*;

verus! {

/// The odd constant that keeps successive mixer inputs apart.
pub const GOLDEN: u32 = 0x9e37_79b9;

/// The mixer: two rounds of xor-shift and odd multiplication, then a last
/// xor-shift, all on 32 bits.
pub open spec fn mixed(value: u32) -> u32 {
    let a = value ^ (value >> 16);
    let b = a.wrapping_mul(0x7feb_352d);
    let c = b ^ (b >> 15);
    let d = c.wrapping_mul(0x846c_a68b);
    d ^ (d >> 16)
}

/// A factor that has an inverse on 32 bits can be cancelled.
proof fn lemma_factor_cancels(factor: u32, inverse: u32, a: u32, b: u32)
    requires
        factor * inverse % 0x1_0000_0000 == 1,
        a.wrapping_mul(factor) == b.wrapping_mul(factor),
    ensures
        a == b,
{
    let modulus = 0x1_0000_0000int;
    let apart = a - b;
    let turns = a * factor / modulus - b * factor / modulus;
    let rounds = factor * inverse / modulus;
    let whole = turns * inverse - apart * rounds;
    assert(factor * inverse == modulus * rounds + 1);
    assert(apart * factor == modulus * turns) by {
        assert(apart * factor == a * factor - b * factor) by (nonlinear_arith)
            requires
                apart == a - b,
        ;
    }
    assert(apart == modulus * whole) by (nonlinear_arith)
        requires
            apart * factor == modulus * turns,
            factor * inverse == modulus * rounds + 1,
            whole == turns * inverse - apart * rounds,
    ;
}

/// Multiplying by a factor and then by its inverse on 32 bits undoes it.
proof fn lemma_factor_undone(factor: u32, inverse: u32, a: u32)
    requires
        factor * inverse % 0x1_0000_0000 == 1,
    ensures
        a.wrapping_mul(factor).wrapping_mul(inverse) == a,
{
    let modulus = 0x1_0000_0000int;
    let rounds = factor * inverse / modulus;
    assert(a * (factor * inverse) == modulus * (a * rounds) + a) by (nonlinear_arith)
        requires
            factor * inverse == modulus * rounds + 1,
    ;
    lemma_mul_mod_noop_left(a * factor, inverse as int, modulus);
    lemma_mul_is_associative(a as int, factor as int, inverse as int);
    lemma_mod_multiples_vanish(a * rounds, a as int, modulus);
}

/// The mixer can be undone, and this undoes it: the steps backwards, each
/// multiplication by the factor's inverse on 32 bits.
pub proof fn law_mixer_can_be_undone(value: u32)
    ensures
        ({
            let d = mixed(value) ^ (mixed(value) >> 16);
            let c = d.wrapping_mul(0x4302_1123);
            let b = c ^ (c >> 15) ^ (c >> 30);
            let a = b.wrapping_mul(0x1d69_e2a5);
            a ^ (a >> 16) == value
        }),
{
    let a = value ^ (value >> 16);
    let b = a.wrapping_mul(0x7feb_352d);
    let c = b ^ (b >> 15);
    let d = c.wrapping_mul(0x846c_a68b);
    let mixed_value = d ^ (d >> 16);
    assert(mixed_value ^ (mixed_value >> 16) == d) by (bit_vector)
        requires
            mixed_value == d ^ (d >> 16),
    ;
    lemma_factor_undone(0x846c_a68b, 0x4302_1123, c);
    assert(c ^ (c >> 15) ^ (c >> 30) == b) by (bit_vector)
        requires
            c == b ^ (b >> 15),
    ;
    lemma_factor_undone(0x7feb_352d, 0x1d69_e2a5, a);
    assert(a ^ (a >> 16) == value) by (bit_vector)
        requires
            a == value ^ (value >> 16),
    ;
}

/// The mixer is one-to-one: different words mix to different words.
pub proof fn law_mixer_is_one_to_one(a: u32, b: u32)
    ensures
        mixed(a) == mixed(b) <==> a == b,
{
    if mixed(a) == mixed(b) {
        let (a1, b1) = (a ^ (a >> 16), b ^ (b >> 16));
        let (a2, b2) = (a1.wrapping_mul(0x7feb_352d), b1.wrapping_mul(0x7feb_352d));
        let (a3, b3) = (a2 ^ (a2 >> 15), b2 ^ (b2 >> 15));
        let (a4, b4) = (a3.wrapping_mul(0x846c_a68b), b3.wrapping_mul(0x846c_a68b));
        assert(a4 ^ (a4 >> 16) == b4 ^ (b4 >> 16) ==> a4 == b4) by (bit_vector);
        lemma_factor_cancels(0x846c_a68b, 0x4302_1123, a3, b3);
        assert(a2 ^ (a2 >> 15) == b2 ^ (b2 >> 15) ==> a2 == b2) by (bit_vector);
        lemma_factor_cancels(0x7feb_352d, 0x1d69_e2a5, a1, b1);
        assert(a ^ (a >> 16) == b ^ (b >> 16) ==> a == b) by (bit_vector);
    }
}

/// Applies the mixer to `value`.
pub fn mix(value: u32) -> (result: u32)
    ensures
        result == mixed(value),
{
    let mut value = value;
    value ^= value >> 16;
    value = value.wrapping_mul(0x7feb_352d);
    value ^= value >> 15;
    value = value.wrapping_mul(0x846c_a68b);
    value ^ (value >> 16)
}

/// Applies the mixer to four values side by side.
pub fn mix4(values: [u32; 4]) -> (result: [u32; 4])
    ensures
        forall|i: int| 0 <= i < 4 ==> #[trigger] result[i] == mixed(values[i]),
{
    [mix(values[0]), mix(values[1]), mix(values[2]), mix(values[3])]
}

} // verus!
