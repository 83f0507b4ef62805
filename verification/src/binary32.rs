//! Single-precision binary floating-point numbers, held by their bit pattern.
//!
//! Every finite number of the format is a whole multiple of 2^-149, so its
//! value is modelled exactly by an integer: the value multiplied by 2^149.

use vstd::arithmetic::div_mod::{lemma_div_by_multiple, lemma_div_denominator};
use vstd::arithmetic::mul::{
    lemma_mul_equality_converse, lemma_mul_inequality, lemma_mul_is_commutative,
    lemma_mul_strict_inequality,
};
use vstd::arithmetic::power2::{
    lemma2_to64, lemma_pow2_adds, lemma_pow2_pos, lemma_pow2_strictly_increases, pow2,
};
use vstd::prelude::*;

verus! {

/// The value one in the unit of `Binary32::scaled`: 2^149.
pub open spec fn unit() -> nat {
    pow2(149)
}

/// A number in the IEEE 754 binary32 interchange format: one sign bit, eight
/// exponent bits and twenty-three fraction bits, from the most significant
/// bit down.
#[derive(Clone, Copy, Debug, PartialEq, Eq, Structural)]
pub struct Binary32 {
    pub bits: u32,
}

impl Binary32 {
    /// Whether the sign bit is set.
    pub open spec fn negative(self) -> bool {
        self.bits >= 0x8000_0000
    }

    /// The eight exponent bits, as a number below 256.
    pub open spec fn exponent_field(self) -> nat {
        ((self.bits / 0x80_0000) % 0x100) as nat
    }

    /// The twenty-three fraction bits, as a number below 2^23.
    pub open spec fn fraction_field(self) -> nat {
        (self.bits % 0x80_0000) as nat
    }

    pub open spec fn is_nan(self) -> bool {
        self.exponent_field() == 0xff && self.fraction_field() != 0
    }

    pub open spec fn is_infinite(self) -> bool {
        self.exponent_field() == 0xff && self.fraction_field() == 0
    }

    pub open spec fn is_finite(self) -> bool {
        self.exponent_field() < 0xff
    }

    /// The significand as a whole number: the fraction bits, with the implicit
    /// leading one unless the number is subnormal or zero.
    pub open spec fn significand(self) -> nat {
        if self.exponent_field() == 0 {
            self.fraction_field()
        } else {
            0x80_0000 + self.fraction_field()
        }
    }

    /// The power of two by which the significand is multiplied to give the
    /// magnitude in units of 2^-149.
    pub open spec fn scale(self) -> nat {
        if self.exponent_field() == 0 {
            0
        } else {
            (self.exponent_field() - 1) as nat
        }
    }

    /// The absolute value of a finite number, multiplied by 2^149.
    pub open spec fn magnitude(self) -> nat {
        self.significand() * pow2(self.scale())
    }

    /// The value of a finite number, multiplied by 2^149.
    pub open spec fn scaled(self) -> int {
        if self.negative() {
            -(self.magnitude() as int)
        } else {
            self.magnitude() as int
        }
    }

    /// Positive zero.
    pub open spec fn zero() -> Binary32 {
        Binary32 { bits: 0 }
    }

    /// The number one.
    pub open spec fn one() -> Binary32 {
        Binary32 { bits: 0x3f80_0000 }
    }

    /// The number with the given bit pattern.
    pub fn from_bits(bits: u32) -> (r: Self)
        ensures
            r.bits == bits,
    {
        Binary32 { bits }
    }

    /// The bit pattern of the number.
    pub fn to_bits(self) -> (bits: u32)
        ensures
            bits == self.bits,
    {
        self.bits
    }

    /// The number with the given sign, exponent bits and fraction bits.
    pub(crate) fn from_fields(negative: bool, exponent: u32, fraction: u32) -> (r: Self)
        requires
            exponent < 0x100,
            fraction < 0x80_0000,
        ensures
            r.negative() == negative,
            r.exponent_field() == exponent,
            r.fraction_field() == fraction,
    {
        let sign: u32 = if negative {
            0x8000_0000
        } else {
            0
        };
        Binary32 { bits: sign + exponent * 0x80_0000 + fraction }
    }

    /// Whether the sign bit is set.
    pub fn sign_bit(self) -> (negative: bool)
        ensures
            negative == self.negative(),
    {
        self.bits >= 0x8000_0000
    }

    /// The eight exponent bits.
    pub fn exponent_bits(self) -> (exponent: u32)
        ensures
            exponent == self.exponent_field(),
    {
        (self.bits / 0x80_0000) % 0x100
    }

    /// The twenty-three fraction bits.
    pub fn fraction_bits(self) -> (fraction: u32)
        ensures
            fraction == self.fraction_field(),
    {
        self.bits % 0x80_0000
    }
}

/// The bit patterns of `zero` and `one` stand for the values zero and one.
pub proof fn lemma_zero_and_one()
    ensures
        Binary32::zero().is_finite(),
        Binary32::zero().scaled() == 0,
        Binary32::one().is_finite(),
        Binary32::one().scaled() == unit(),
{
    lemma2_to64();
    lemma_pow2_adds(23, 126);
    assert(Binary32::zero().significand() == 0);
    assert(0 * pow2(0) == 0);
    assert(Binary32::one().exponent_field() == 127);
    assert(Binary32::one().significand() == 0x80_0000);
}

/// Dividing `a * 2^k` by `2^(k + d)` is dividing `a` by `2^d`.
pub(crate) proof fn lemma_quotient_cancels_pow2(a: nat, k: nat, d: nat)
    ensures
        (a * pow2(k)) / pow2(k + d) == a / pow2(d),
{
    lemma_pow2_adds(k, d);
    lemma_pow2_pos(k);
    lemma_pow2_pos(d);
    lemma_div_denominator((a * pow2(k)) as int, pow2(k) as int, pow2(d) as int);
    lemma_div_by_multiple(a as int, pow2(k) as int);
}

/// `2^a <= 2^b` where `a <= b`.
pub(crate) proof fn lemma_pow2_increases(a: nat, b: nat)
    requires
        a <= b,
    ensures
        pow2(a) <= pow2(b),
{
    if a < b {
        lemma_pow2_strictly_increases(a, b);
    }
}

/// A number whose exponent field is at most `e` is smaller than `2^(23 + e)`
/// in magnitude, in units of 2^-149.
pub proof fn lemma_magnitude_below(x: Binary32, e: nat)
    requires
        0 < e,
        x.exponent_field() <= e,
    ensures
        x.magnitude() < pow2(23 + e),
{
    let s: nat = x.scale();
    lemma2_to64();
    lemma_pow2_pos(s);
    lemma_pow2_adds(24, s);
    lemma_pow2_increases(24 + s, 23 + e);
    lemma_mul_strict_inequality(x.significand() as int, pow2(24) as int, pow2(s) as int);
}

/// A number whose exponent field is at least `e` is at least `2^(22 + e)` in
/// magnitude, in units of 2^-149. The bound reads the fields by the formula
/// for finite numbers, also where they stand for an infinity or a NaN.
pub proof fn lemma_magnitude_at_least(x: Binary32, e: nat)
    requires
        0 < e <= x.exponent_field(),
    ensures
        x.magnitude() >= pow2(22 + e),
{
    let s: nat = x.scale();
    lemma2_to64();
    lemma_pow2_adds(23, s);
    lemma_pow2_increases(22 + e, 23 + s);
    lemma_mul_inequality(pow2(23) as int, x.significand() as int, pow2(s) as int);
}

/// Two finite numbers of one sign and one magnitude are the same number:
/// every finite value has a single bit pattern, but for the sign of zero.
pub proof fn lemma_finite_number_is_determined(a: Binary32, b: Binary32)
    requires
        a.is_finite(),
        b.is_finite(),
        a.negative() == b.negative(),
        a.magnitude() == b.magnitude(),
    ensures
        a == b,
{
    lemma2_to64();
    if a.exponent_field() < b.exponent_field() {
        lemma_exponents_ordered_by_magnitude(a, b);
    }
    if b.exponent_field() < a.exponent_field() {
        lemma_exponents_ordered_by_magnitude(b, a);
    }
    lemma_pow2_pos(a.scale());
    lemma_mul_is_commutative(a.significand() as int, pow2(a.scale()) as int);
    lemma_mul_is_commutative(b.significand() as int, pow2(a.scale()) as int);
    lemma_mul_equality_converse(
        pow2(a.scale()) as int,
        a.significand() as int,
        b.significand() as int,
    );
    assert(a.bits == b.bits);
}

/// A number with a smaller exponent field has a smaller magnitude.
proof fn lemma_exponents_ordered_by_magnitude(a: Binary32, b: Binary32)
    requires
        a.exponent_field() < b.exponent_field(),
    ensures
        a.magnitude() < b.magnitude(),
{
    lemma2_to64();
    lemma_magnitude_at_least(b, b.exponent_field());
    if a.exponent_field() == 0 {
        assert(a.magnitude() == a.fraction_field()) by {
            assert(a.significand() * 1 == a.significand());
        }
        lemma_pow2_increases(23, 22 + b.exponent_field());
    } else {
        lemma_magnitude_below(a, a.exponent_field());
        lemma_pow2_increases(23 + a.exponent_field(), 22 + b.exponent_field());
    }
}

} // verus!
