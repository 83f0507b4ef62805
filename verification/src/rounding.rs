//! Rounding single-precision numbers to the nearest whole number, a number
//! half way between two whole numbers going to the one farther from zero.

use crate::binary32::{
    lemma_finite_number_is_determined, lemma_magnitude_at_least, lemma_magnitude_below,
    lemma_quotient_cancels_pow2, unit, Binary32,
};
use vstd::arithmetic::div_mod::{
    lemma_basic_div, lemma_div_by_multiple, lemma_div_is_ordered, lemma_div_multiples_vanish_fancy,
    lemma_fundamental_div_mod, lemma_mod_multiples_basic, lemma_mod_pos_bound,
};
use vstd::arithmetic::mul::{
    lemma_mul_inequality, lemma_mul_is_associative, lemma_mul_is_commutative,
    lemma_mul_is_distributive_add_other_way,
};
use vstd::arithmetic::power2::{
    lemma2_to64, lemma_pow2_adds, lemma_pow2_pos, lemma_pow2_unfold, pow2,
};
use vstd::bits::lemma_u32_shl_is_mul;
use vstd::prelude::*;

verus! {

/// One half in the unit of `Binary32::scaled`: 2^148.
pub open spec fn half_unit() -> nat {
    pow2(148)
}

/// The magnitude `m` rounded to a whole number, both in the unit of
/// `Binary32::scaled`: the floor of `m` plus one half.
pub open spec fn round_magnitude(m: nat) -> nat {
    ((m + half_unit()) / unit()) * unit()
}

/// Whether `r` is `x` rounded to the nearest whole number, ties going away
/// from zero. The sign is kept, so a negative number above minus one half
/// rounds to negative zero. An infinity or a NaN is left as it is.
pub open spec fn is_rounding_of(r: Binary32, x: Binary32) -> bool {
    if x.is_finite() {
        &&& r.is_finite()
        &&& r.negative() == x.negative()
        &&& r.magnitude() == round_magnitude(x.magnitude())
    } else {
        r == x
    }
}

/// One half is half of one, and both are positive.
pub proof fn lemma_half_unit()
    ensures
        unit() == 2 * half_unit(),
        half_unit() > 0,
{
    lemma_pow2_unfold(149);
    lemma_pow2_pos(148);
}

/// A whole number rounds to itself.
pub proof fn lemma_round_whole(k: nat)
    ensures
        round_magnitude(k * unit()) == k * unit(),
{
    lemma_half_unit();
    lemma_mul_is_commutative(k as int, unit() as int);
    lemma_div_multiples_vanish_fancy(k as int, half_unit() as int, unit() as int);
}

/// The rounded magnitude is a whole number, and among the whole numbers the
/// nearest: it lies at most one half above what was rounded and less than
/// one half below it.
pub proof fn lemma_round_is_nearest(m: nat)
    ensures
        round_magnitude(m) % unit() == 0,
        round_magnitude(m) <= m + half_unit(),
        m < round_magnitude(m) + half_unit(),
{
    lemma_half_unit();
    let q: nat = (m + half_unit()) / unit();
    lemma_mod_multiples_basic(q as int, unit() as int);
    lemma_fundamental_div_mod((m + half_unit()) as int, unit() as int);
    lemma_mod_pos_bound((m + half_unit()) as int, unit() as int);
    lemma_mul_is_commutative(q as int, unit() as int);
}

/// A magnitude below one half rounds to zero.
pub proof fn lemma_round_below_half(m: nat)
    requires
        m < half_unit(),
    ensures
        round_magnitude(m) == 0,
{
    lemma_half_unit();
    lemma_basic_div((m + half_unit()) as int, unit() as int);
}

/// A magnitude from one half up to, but not including, one rounds to one.
pub proof fn lemma_round_upper_half(m: nat)
    requires
        half_unit() <= m < unit(),
    ensures
        round_magnitude(m) == unit(),
{
    lemma_half_unit();
    lemma_div_multiples_vanish_fancy(1, m - half_unit(), unit() as int);
    assert(unit() * 1 + (m - half_unit()) == m + half_unit());
    assert(1 * unit() == unit());
}

/// Rounding `sig * 2^e`, where `2^(e + d)` is one: the digits of `sig` below
/// `2^d` are rounded away.
proof fn lemma_round_significand(sig: nat, e: nat, d: nat)
    requires
        e + d == 149,
        d >= 1,
    ensures
        round_magnitude(sig * pow2(e)) == (((sig + pow2((d - 1) as nat)) / pow2(d)) * pow2(d))
            * pow2(e),
{
    let half: nat = pow2((d - 1) as nat);
    let q: nat = (sig + half) / pow2(d);
    lemma_pow2_adds(e, d);
    lemma_pow2_adds(e, (d - 1) as nat);
    lemma_mul_is_commutative(pow2(e) as int, half as int);
    lemma_mul_is_distributive_add_other_way(pow2(e) as int, sig as int, half as int);
    lemma_quotient_cancels_pow2(sig + half, e, d);
    lemma_mul_is_commutative(pow2(e) as int, pow2(d) as int);
    lemma_mul_is_associative(q as int, pow2(d) as int, pow2(e) as int);
}

/// A number has one rounding only.
pub proof fn lemma_rounding_is_unique(first: Binary32, second: Binary32, x: Binary32)
    requires
        is_rounding_of(first, x),
        is_rounding_of(second, x),
    ensures
        first == second,
{
    if x.is_finite() {
        lemma_finite_number_is_determined(first, second);
    }
}

/// A rounded number is its own rounding.
pub proof fn lemma_rounding_is_idempotent(r: Binary32, x: Binary32)
    requires
        is_rounding_of(r, x),
    ensures
        is_rounding_of(r, r),
{
    if x.is_finite() {
        lemma_round_whole((x.magnitude() + half_unit()) / unit());
    }
}

/// A finite number whose exponent field is 150 or more is whole: it rounds
/// to itself.
proof fn lemma_large_is_whole(x: Binary32)
    requires
        x.exponent_field() >= 150,
    ensures
        round_magnitude(x.magnitude()) == x.magnitude(),
{
    let up: nat = (x.scale() - 149) as nat;
    lemma_pow2_adds(up, 149);
    lemma_mul_is_associative(x.significand() as int, pow2(up) as int, unit() as int);
    lemma_round_whole(x.significand() * pow2(up));
}

/// Rounding away the lowest `d` digits of a significand `sig` with its
/// leading one in place: what is kept is at most `sig` plus half of `2^d`,
/// and it is a significand of the same kind again or, carried, 2^24.
proof fn lemma_kept_digits(sig: nat, d: nat)
    requires
        0x80_0000 <= sig < 0x100_0000,
        1 <= d <= 23,
    ensures
        pow2(d) == 2 * pow2((d - 1) as nat),
        0 < pow2(d) <= 0x80_0000,
        ((sig + pow2((d - 1) as nat)) / pow2(d)) * pow2(d) <= sig + pow2((d - 1) as nat),
        0x80_0000 <= ((sig + pow2((d - 1) as nat)) / pow2(d)) * pow2(d) <= 0x100_0000,
{
    let step: nat = pow2(d);
    let half: nat = pow2((d - 1) as nat);
    let low: nat = pow2((23 - d) as nat);
    let whole: nat = (sig + half) / step;
    lemma2_to64();
    lemma_pow2_unfold(d);
    lemma_pow2_pos((d - 1) as nat);
    lemma_pow2_pos((23 - d) as nat);
    lemma_pow2_adds(d, (23 - d) as nat);
    assert(step <= 0x80_0000) by (nonlinear_arith)
        requires
            step * low == 0x80_0000,
            low >= 1,
    ;
    // What is kept is at most what was rounded.
    lemma_fundamental_div_mod((sig + half) as int, step as int);
    lemma_mod_pos_bound((sig + half) as int, step as int);
    lemma_mul_is_commutative(step as int, whole as int);
    // It is at least 2^23, which is `low` steps.
    lemma_mul_is_commutative(low as int, step as int);
    lemma_div_is_ordered(0x80_0000, (sig + half) as int, step as int);
    lemma_div_by_multiple(low as int, step as int);
    lemma_mul_inequality(low as int, whole as int, step as int);
    // It is at most 2^24, which is `2 * low` steps.
    assert(step * (2 * low) == 0x100_0000) by (nonlinear_arith)
        requires
            step * low == 0x80_0000,
    ;
    lemma_div_is_ordered((sig + half) as int, 0x100_0000 + half - 1, step as int);
    lemma_div_multiples_vanish_fancy((2 * low) as int, half - 1, step as int);
    lemma_mul_inequality(whole as int, (2 * low) as int, step as int);
    lemma_mul_is_commutative((2 * low) as int, step as int);
}

/// Rounds `x` to the nearest whole number, ties going away from zero. The
/// sign is kept; an infinity or a NaN is returned as it is.
pub fn round(x: Binary32) -> (r: Binary32)
    ensures
        is_rounding_of(r, x),
{
    let exponent: u32 = x.exponent_bits();
    if exponent >= 150 {
        // Whole already, or not finite.
        proof {
            lemma_large_is_whole(x);
        }
        return x;
    }
    let negative: bool = x.sign_bit();
    if exponent <= 125 {
        // Below one half: zero.
        proof {
            lemma_magnitude_below(x, 125);
            lemma_round_below_half(x.magnitude());
            assert(0 * pow2(0) == 0);
        }
        return Binary32::from_fields(negative, 0, 0);
    }
    if exponent == 126 {
        // From one half up to one: one.
        proof {
            lemma_magnitude_below(x, 126);
            lemma_magnitude_at_least(x, 126);
            lemma_round_upper_half(x.magnitude());
            lemma2_to64();
            lemma_pow2_adds(23, 126);
        }
        return Binary32::from_fields(negative, 127, 0);
    }
    // From one up to 2^23: the lowest `digits` binary digits of the significand stand
    // for the part below one. Add one half and clear them.
    let digits: u32 = 150 - exponent;
    let significand: u32 = 0x80_0000 + x.fraction_bits();
    proof {
        lemma_kept_digits(significand as nat, digits as nat);
        lemma_round_significand(significand as nat, x.scale(), digits as nat);
        lemma_u32_shl_is_mul(1, digits);
        lemma_u32_shl_is_mul(1, (digits - 1) as u32);
    }
    let step: u32 = 1u32 << digits;
    let half: u32 = 1u32 << (digits - 1);
    let kept: u32 = ((significand + half) / step) * step;
    if kept == 0x100_0000 {
        // Carried into the next power of two.
        proof {
            lemma_pow2_unfold(exponent as nat);
            assert(0x80_0000 * (2 * pow2(x.scale())) == 0x100_0000 * pow2(x.scale()))
                by (nonlinear_arith);
        }
        Binary32::from_fields(negative, exponent + 1, 0)
    } else {
        Binary32::from_fields(negative, exponent, kept - 0x80_0000)
    }
}

/// Replaces each number of `v` by its rounding to the nearest whole number,
/// ties going away from zero.
pub fn round_all(v: &mut [Binary32])
    ensures
        final(v)@.len() == old(v)@.len(),
        forall|i: int|
            0 <= i < old(v)@.len() ==> is_rounding_of(#[trigger] final(v)@[i], old(v)@[i]),
{
    let len: usize = v.len();
    let mut i: usize = 0;
    while i < len
        invariant
            i <= len,
            v@.len() == len,
            old(v)@.len() == len,
            forall|j: int| 0 <= j < i ==> is_rounding_of(#[trigger] v@[j], old(v)@[j]),
            forall|j: int| i <= j < len ==> v@[j] == old(v)@[j],
        decreases len - i,
    {
        let x: Binary32 = v[i];
        v[i] = round(x);
        i += 1;
    }
}

} // verus!
