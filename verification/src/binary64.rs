//! Binary64 values by their bits: classification, exact magnitudes, and the
//! conversions that need no floating-point arithmetic.

use vstd::arithmetic::power2::*;
use vstd::prelude::*;

use crate::problem;
use crate::problem::Dyadic;

verus! {

/// Sign bit of a binary64.
pub const SIGN_BIT: u64 = 0x8000_0000_0000_0000;

/// Weight of the exponent field's lowest bit, and of a normal significand's
/// implicit bit.
pub const IMPLICIT_BIT: u64 = 0x10_0000_0000_0000;

/// A binary64 value, held as its bits.
#[derive(Clone, Copy, Debug, PartialEq, Eq, Hash, Structural)]
pub struct Binary64 {
    bits: u64,
}

impl View for Binary64 {
    type V = u64;

    closed spec fn view(&self) -> u64 {
        self.bits
    }
}

/// Whether the sign bit is set.
pub open spec fn negative(bits: u64) -> bool {
    bits >= SIGN_BIT
}

/// The exponent field.
pub open spec fn exponent_field(bits: u64) -> int {
    (bits / IMPLICIT_BIT) as int % 2048
}

/// The fraction field.
pub open spec fn fraction_field(bits: u64) -> int {
    bits as int % (IMPLICIT_BIT as int)
}

/// Neither an infinity nor a NaN.
pub open spec fn finite(bits: u64) -> bool {
    exponent_field(bits) != 2047
}

/// Nonzero, with the smallest exponent field.
pub open spec fn subnormal(bits: u64) -> bool {
    exponent_field(bits) == 0 && fraction_field(bits) != 0
}

/// The magnitude of a finite value in units of the smallest positive binary64,
/// two to the power -1074.
pub open spec fn unit_magnitude(bits: u64) -> nat {
    if exponent_field(bits) == 0 {
        fraction_field(bits) as nat
    } else {
        ((IMPLICIT_BIT + fraction_field(bits)) * pow2(
            (exponent_field(bits) - 1) as nat,
        )) as nat
    }
}

/// A quotient rounded to the nearest integer, ties away from zero.
pub open spec fn nearest(numerator: nat, denominator: nat) -> nat {
    ((2 * numerator + denominator) / (2 * denominator)) as nat
}

/// The value in units of two to the power -64, rounded to nearest with ties
/// away from zero, where it is neither subnormal nor a negative zero nor
/// outside a signed 128-bit integer.
pub open spec fn fixed_point(bits: u64) -> Option<i128> {
    if !finite(bits) || subnormal(bits) || bits == SIGN_BIT {
        None
    } else {
        let magnitude = nearest(unit_magnitude(bits), pow2(1010));
        if negative(bits) {
            if magnitude <= 0x8000_0000_0000_0000_0000_0000_0000_0000 {
                Some((-(magnitude as int)) as i128)
            } else {
                None
            }
        } else if magnitude < 0x8000_0000_0000_0000_0000_0000_0000_0000 {
            Some(magnitude as i128)
        } else {
            None
        }
    }
}

/// Two to a power that fits in 128 bits.
fn power_128(exponent: u32) -> (power: u128)
    requires
        exponent <= 127,
    ensures
        power == pow2(exponent as nat),
{
    proof {
        lemma2_to64();
    }
    let mut power: u128 = 1;
    let mut done: u32 = 0;
    while done < exponent
        invariant
            done <= exponent <= 127,
            power == pow2(done as nat),
        decreases exponent - done,
    {
        proof {
            lemma_pow2_unfold((done + 1) as nat);
            lemma_pow2_bound(done as nat);
        }
        power = power * 2;
        done = done + 1;
    }
    power
}

/// Powers below 2^127 leave room for one doubling.
proof fn lemma_pow2_bound(exponent: nat)
    requires
        exponent < 127,
    ensures
        pow2(exponent) < 0x8000_0000_0000_0000_0000_0000_0000_0000,
{
    lemma2_to64();
    lemma2_to64_rest();
    lemma_pow2_adds(63, 64);
    lemma_pow2_strictly_increases(exponent, 127);
    assert(pow2(63) * pow2(64) == 0x8000_0000_0000_0000_0000_0000_0000_0000) by (nonlinear_arith)
        requires
            pow2(63) == 0x8000_0000_0000_0000,
            pow2(64) == 0x1_0000_0000_0000_0000,
    ;
}

/// Rounding a multiple of the denominator gives the multiple.
proof fn lemma_nearest_exact(multiple: nat, denominator: nat)
    requires
        0 < denominator,
    ensures
        nearest(multiple * denominator, denominator) == multiple,
{
    let n = 2 * (multiple * denominator) + denominator;
    let d = 2 * denominator;
    assert(n == multiple * d + denominator) by (nonlinear_arith)
        requires
            n == 2 * (multiple * denominator) + denominator,
            d == 2 * denominator,
    ;
    vstd::arithmetic::div_mod::lemma_fundamental_div_mod_converse(
        n as int,
        d as int,
        multiple as int,
        denominator as int,
    );
}

/// A common factor of both numbers does not change the rounded quotient.
proof fn lemma_nearest_scaled(numerator: nat, denominator: nat, factor: nat)
    requires
        0 < denominator,
        0 < factor,
    ensures
        nearest(numerator * factor, denominator * factor) == nearest(numerator, denominator),
{
    let n = 2 * numerator + denominator;
    let d = 2 * denominator;
    let q = (n / d) as int;
    let r = (n % d) as int;
    vstd::arithmetic::div_mod::lemma_fundamental_div_mod(n as int, d as int);
    let scaled_n = 2 * (numerator * factor) + denominator * factor;
    let scaled_d = 2 * (denominator * factor);
    assert(scaled_n == q * scaled_d + r * factor) by (nonlinear_arith)
        requires
            n == d * q + r,
            n == 2 * numerator + denominator,
            d == 2 * denominator,
            scaled_n == 2 * (numerator * factor) + denominator * factor,
            scaled_d == 2 * (denominator * factor),
    ;
    assert(0 <= r * factor < scaled_d) by (nonlinear_arith)
        requires
            0 <= r < d,
            d == 2 * denominator,
            scaled_d == 2 * (denominator * factor),
            0 < factor,
    ;
    vstd::arithmetic::div_mod::lemma_fundamental_div_mod_converse(
        scaled_n as int,
        scaled_d as int,
        q,
        r * factor,
    );
}

/// Without exponent and fraction a value is one of the two zeros.
proof fn lemma_zero_bits(bits: u64)
    requires
        exponent_field(bits) == 0,
        fraction_field(bits) == 0,
    ensures
        bits == 0 || bits == SIGN_BIT,
{
    let high = bits / IMPLICIT_BIT;
    assert(bits == high * IMPLICIT_BIT);
    assert(high < 4096);
    assert(high == 0 || high == 2048);
}

proof fn lemma_left_shift(significand: nat, exponent: nat)
    requires
        exponent >= 1011,
    ensures
        nearest(significand * pow2((exponent - 1) as nat), pow2(1010)) == significand * pow2(
            (exponent - 1011) as nat,
        ),
{
    let scale = pow2((exponent - 1011) as nat);
    let unit = pow2(1010);
    lemma_pow2_pos(1010);
    lemma_pow2_adds((exponent - 1011) as nat, 1010);
    lemma_nearest_exact(significand * scale, unit);
    assert(significand * (scale * unit) == (significand * scale) * unit) by (nonlinear_arith);
}

proof fn lemma_large_shift(significand: nat, shift: nat)
    requires
        significand >= IMPLICIT_BIT,
        shift > 75,
    ensures
        significand * pow2(shift) > 0x8000_0000_0000_0000_0000_0000_0000_0000,
{
    lemma2_to64();
    lemma_pow2_adds(64, 12);
    if shift > 76 {
        lemma_pow2_strictly_increases(76, shift);
    }
    let scale = pow2(shift);
    assert(significand * scale > 0x8000_0000_0000_0000_0000_0000_0000_0000) by (nonlinear_arith)
        requires
            significand >= 0x10_0000_0000_0000,
            scale >= 0x1000_0000_0000_0000_0000,
    ;
}

proof fn lemma_small_shift(significand: nat, shift: nat)
    requires
        significand < 2 * IMPLICIT_BIT,
        shift <= 75,
    ensures
        significand * pow2(shift) <= u128::MAX,
{
    lemma2_to64();
    lemma_pow2_adds(64, 11);
    if shift < 75 {
        lemma_pow2_strictly_increases(shift, 75);
    }
    let scale = pow2(shift);
    assert(significand * scale <= u128::MAX) by (nonlinear_arith)
        requires
            significand < 0x20_0000_0000_0000,
            scale <= 0x800_0000_0000_0000_0000,
    ;
}

proof fn lemma_right_shift(significand: nat, exponent: nat, right: nat)
    requires
        0 < exponent,
        exponent + right == 1011,
    ensures
        nearest(significand * pow2((exponent - 1) as nat), pow2(1010)) == nearest(
            significand,
            pow2(right),
        ),
{
    lemma_pow2_pos((exponent - 1) as nat);
    lemma_pow2_pos(right);
    lemma_pow2_adds(right, (exponent - 1) as nat);
    lemma_nearest_scaled(significand, pow2(right), pow2((exponent - 1) as nat));
}

proof fn lemma_vanishing(significand: nat, right: nat)
    requires
        significand < 2 * IMPLICIT_BIT,
        right > 54,
    ensures
        nearest(significand, pow2(right)) == 0,
{
    lemma2_to64_rest();
    lemma_pow2_strictly_increases(54, right);
    let scale = pow2(right);
    vstd::arithmetic::div_mod::lemma_basic_div((2 * significand + scale) as int, (2 * scale) as int);
}

proof fn lemma_rounding(significand: nat, scale: nat)
    requires
        0 < scale,
        scale % 2 == 0,
    ensures
        nearest(significand, scale) == significand / scale + (if significand % scale >= scale / 2 {
            1nat
        } else {
            0nat
        }),
{
    let q = (significand / scale) as int;
    let r = (significand % scale) as int;
    let d = scale as int;
    vstd::arithmetic::div_mod::lemma_fundamental_div_mod(significand as int, d);
    let up = r >= d / 2;
    let quotient = if up {
        q + 1
    } else {
        q
    };
    let rest = if up {
        2 * r - d
    } else {
        2 * r + d
    };
    assert(2 * significand + d == (2 * d) * quotient + rest) by (nonlinear_arith)
        requires
            significand == d * q + r,
            up ==> quotient == q + 1 && rest == 2 * r - d,
            !up ==> quotient == q && rest == 2 * r + d,
    ;
    assert(0 <= rest < 2 * d);
    vstd::arithmetic::mul::lemma_mul_is_commutative(2 * d, quotient);
    vstd::arithmetic::div_mod::lemma_fundamental_div_mod_converse(
        2 * significand + d,
        2 * d,
        quotient,
        rest,
    );
}

/// A binary64 is determined by its bits.
pub proof fn lemma_determined_by_bits(left: Binary64, right: Binary64)
    ensures
        (left == right) == (left@ == right@),
        Binary64::of_bits(left@) == left,
{
}

impl Binary64 {
    /// The value with given bits.
    pub closed spec fn of_bits(bits: u64) -> Binary64 {
        Binary64 { bits }
    }

    pub fn from_bits(bits: u64) -> (value: Binary64)
        ensures
            value@ == bits,
            value == Binary64::of_bits(bits),
    {
        Binary64 { bits }
    }

    pub fn to_bits(self) -> (bits: u64)
        ensures
            bits == self@,
    {
        self.bits
    }

    pub fn is_finite(self) -> (result: bool)
        ensures
            result == finite(self@),
    {
        (self.bits / IMPLICIT_BIT) % 2048 != 2047
    }

    pub fn is_sign_negative(self) -> (result: bool)
        ensures
            result == negative(self@),
    {
        self.bits >= SIGN_BIT
    }

    pub fn is_subnormal(self) -> (result: bool)
        ensures
            result == subnormal(self@),
    {
        (self.bits / IMPLICIT_BIT) % 2048 == 0 && self.bits % IMPLICIT_BIT != 0
    }

    /// One rounding step to signed Q63.64.
    ///
    /// Ties are rounded away from zero.
    pub fn to_q63_64(self) -> (value: Option<i128>)
        ensures
            value == fixed_point(self@),
    {
        let exponent: u64 = (self.bits / IMPLICIT_BIT) % 2048;
        let fraction: u64 = self.bits % IMPLICIT_BIT;
        let is_negative = self.bits >= SIGN_BIT;
        if exponent == 2047 {
            return None;
        }
        if exponent == 0 {
            proof {
                if fraction == 0 {
                    lemma_zero_bits(self.bits);
                }
                lemma_pow2_pos(1010);
                lemma_nearest_exact(0, pow2(1010));
                assert(0 * pow2(1010) == 0) by (nonlinear_arith);
            }
            if fraction == 0 && !is_negative {
                return Some(0);
            }
            return None;
        }
        let significand: u128 = IMPLICIT_BIT as u128 + fraction as u128;
        let ghost units = unit_magnitude(self@);
        let magnitude: u128 = if exponent >= 1011 {
            let shift: u64 = exponent - 1011;
            if shift > 75 {
                proof {
                    lemma_left_shift(significand as nat, exponent as nat);
                    lemma_large_shift(significand as nat, shift as nat);
                }
                return None;
            }
            let scale: u128 = power_128(shift as u32);
            proof {
                lemma_left_shift(significand as nat, exponent as nat);
                lemma_small_shift(significand as nat, shift as nat);
            }
            significand * scale
        } else {
            let right: u64 = 1011 - exponent;
            proof {
                lemma_right_shift(significand as nat, exponent as nat, right as nat);
            }
            if right > 54 {
                proof {
                    lemma_vanishing(significand as nat, right as nat);
                }
                0
            } else {
                let scale: u128 = power_128(right as u32);
                proof {
                    lemma_pow2_unfold(right as nat);
                    lemma_pow2_pos((right - 1) as nat);
                    lemma_rounding(significand as nat, scale as nat);
                }
                let quotient: u128 = significand / scale;
                if significand % scale >= scale / 2 {
                    quotient + 1
                } else {
                    quotient
                }
            }
        };
        if is_negative {
            if magnitude > 0x8000_0000_0000_0000_0000_0000_0000_0000 {
                None
            } else if magnitude == 0x8000_0000_0000_0000_0000_0000_0000_0000 {
                Some(i128::MIN)
            } else {
                Some(-(magnitude as i128))
            }
        } else if magnitude < 0x8000_0000_0000_0000_0000_0000_0000_0000 {
            Some(magnitude as i128)
        } else {
            None
        }
    }
}

/// The bits of one.
pub const ONE_BITS: u64 = 0x3ff0_0000_0000_0000;

/// A canonical challenge coordinate: zero or a normal value of the closed unit
/// interval, without a sign.
pub open spec fn unit_coordinate(bits: u64) -> bool {
    &&& !negative(bits)
    &&& finite(bits)
    &&& !subnormal(bits)
    &&& unit_magnitude(bits) <= pow2(1074)
}

/// Nonnegative bits are ordered as the values are, around one.
proof fn lemma_below_one(bits: u64)
    requires
        !negative(bits),
        finite(bits),
    ensures
        unit_magnitude(bits) <= pow2(1074) <==> bits <= ONE_BITS,
{
    let e = exponent_field(bits);
    let f = fraction_field(bits);
    assert(bits == e * (IMPLICIT_BIT as int) + f) by {
        let high = (bits / IMPLICIT_BIT) as int;
        assert(high < 2048);
        assert(high % 2048 == high);
    }
    lemma2_to64_rest();
    if e == 0 {
        lemma_pow2_strictly_increases(52, 1074);
    } else {
        let scale = pow2((e - 1) as nat);
        let significand = IMPLICIT_BIT + f;
        lemma_pow2_adds(52, 1022);
        lemma_pow2_pos((e - 1) as nat);
        lemma_pow2_pos(1022);
        let unit = pow2(1022);
        if e < 1023 {
            lemma_pow2_adds(53, 1021);
            if e < 1022 {
                lemma_pow2_strictly_increases((e - 1) as nat, 1021);
            }
            let bound = pow2(1021);
            assert(significand * scale <= 0x20_0000_0000_0000 * bound) by (nonlinear_arith)
                requires
                    0 <= significand < 0x20_0000_0000_0000,
                    0 < scale <= bound,
            ;
        } else if e == 1023 {
            assert(significand * unit <= 0x10_0000_0000_0000 * unit <==> f == 0)
                by (nonlinear_arith)
                requires
                    significand == 0x10_0000_0000_0000 + f,
                    0 <= f,
                    0 < unit,
            ;
        } else {
            lemma_pow2_strictly_increases(1022, (e - 1) as nat);
            assert(significand * scale > 0x10_0000_0000_0000 * unit) by (nonlinear_arith)
                requires
                    significand >= 0x10_0000_0000_0000,
                    scale > unit,
                    0 < unit,
            ;
        }
    }
}

impl Binary64 {
    /// Whether the value is a canonical challenge coordinate.
    pub fn is_unit_coordinate(self) -> (result: bool)
        ensures
            result == unit_coordinate(self@),
    {
        if !self.is_finite() || self.is_subnormal() || self.is_sign_negative() {
            return false;
        }
        self.is_at_most_one()
    }

    /// Whether a nonnegative finite value is at most one.
    pub fn is_at_most_one(self) -> (result: bool)
        requires
            finite(self@),
            !negative(self@),
        ensures
            result == (unit_magnitude(self@) <= pow2(1074)),
    {
        proof {
            lemma_below_one(self@);
        }
        self.bits <= ONE_BITS
    }
}

/// A quotient rounded to the nearest integer, ties to the even one.
pub open spec fn nearest_even(numerator: nat, denominator: nat) -> nat {
    let quotient = numerator / denominator;
    let remainder = numerator % denominator;
    if 2 * remainder < denominator || 2 * remainder == denominator && quotient % 2 == 0 {
        quotient
    } else {
        quotient + 1
    }
}

/// How many bits of a number lie below its 53 leading ones.
pub open spec fn excess_bits(size: nat) -> nat
    decreases size,
{
    if size < 0x20_0000_0000_0000 {
        0
    } else {
        1 + excess_bits(size / 2)
    }
}

/// A number rounded to 53 significant bits, ties to even.
pub open spec fn significant(size: nat) -> nat {
    nearest_even(size, pow2(excess_bits(size))) * pow2(excess_bits(size))
}

/// Whether bits spell a dyadic number, its mantissa rounded to 53 significant
/// bits.
pub open spec fn spells_dyadic(bits: u64, mantissa: i64, fractional_bits: u8) -> bool {
    &&& finite(bits)
    &&& negative(bits) == (mantissa < 0)
    &&& unit_magnitude(bits) == significant(problem::magnitude(mantissa as int) as nat) * pow2(
        (1074 - fractional_bits) as nat,
    )
}

/// Numbers of at most 53 bits are not rounded.
pub proof fn lemma_short_numbers_are_significant(size: nat)
    requires
        size < 0x20_0000_0000_0000,
    ensures
        significant(size) == size,
{
    lemma2_to64();
    assert(size / 1 == size && size % 1 == 0);
    assert(size * 1 == size);
}

/// Assembling bits from fields gives the fields back.
proof fn lemma_assembled(sign: u64, exponent: u64, fraction: u64)
    requires
        sign <= 1,
        exponent < 2048,
        fraction < IMPLICIT_BIT,
    ensures
        sign * SIGN_BIT + exponent * IMPLICIT_BIT + fraction <= u64::MAX,
        ({
            let bits = (sign * SIGN_BIT + exponent * IMPLICIT_BIT + fraction) as u64;
            &&& negative(bits) == (sign == 1)
            &&& exponent_field(bits) == exponent
            &&& fraction_field(bits) == fraction
        }),
{
    let bits = (sign * SIGN_BIT + exponent * IMPLICIT_BIT + fraction) as u64;
    let high = sign * 2048 + exponent;
    assert(bits == high * IMPLICIT_BIT + fraction);
    assert(bits / IMPLICIT_BIT == high);
    assert(high % 2048 == exponent);
}

/// A normal value from its sign, significand and exponent field.
fn normal(negative_sign: bool, significand: u64, exponent: u64) -> (value: Binary64)
    requires
        IMPLICIT_BIT <= significand < 2 * IMPLICIT_BIT,
        1 <= exponent < 2047,
    ensures
        finite(value@),
        negative(value@) == negative_sign,
        unit_magnitude(value@) == significand * pow2((exponent - 1) as nat),
{
    let fraction: u64 = significand - IMPLICIT_BIT;
    let sign: u64 = if negative_sign {
        1
    } else {
        0
    };
    proof {
        lemma_assembled(sign, exponent, fraction);
    }
    Binary64 { bits: sign * SIGN_BIT + exponent * IMPLICIT_BIT + fraction }
}

/// The leading 53 bits of a long number, rounded to nearest with ties to even,
/// and how many bits were dropped.
fn round_long(size: u64) -> (rounded: (u64, u64))
    requires
        size >= 2 * IMPLICIT_BIT,
    ensures
        rounded.1 == excess_bits(size as nat),
        rounded.0 == nearest_even(size as nat, pow2(rounded.1 as nat)),
        IMPLICIT_BIT <= rounded.0 <= 2 * IMPLICIT_BIT,
        rounded.1 <= 11,
{
    let mut leading: u64 = size;
    let mut unit: u64 = 1;
    let mut dropped: u64 = 0;
    proof {
        lemma2_to64();
        assert(size / 1 == size);
    }
    while leading >= 2 * IMPLICIT_BIT
        invariant
            leading == size / unit,
            unit == pow2(dropped as nat),
            1 <= unit,
            unit * leading <= size,
            dropped + excess_bits(leading as nat) == excess_bits(size as nat),
            IMPLICIT_BIT <= leading,
            dropped <= 11,
        decreases leading,
    {
        proof {
            lemma_pow2_unfold((dropped + 1) as nat);
            lemma2_to64();
            if dropped == 11 {
                assert(unit == 2048);
                assert(unit * leading >= 2048 * (2 * IMPLICIT_BIT)) by (nonlinear_arith)
                    requires
                        unit == 2048,
                        leading >= 2 * IMPLICIT_BIT,
                ;
            }
            assert(unit <= 1024) by {
                if dropped < 11 {
                    if dropped < 10 {
                        lemma_pow2_strictly_increases(dropped as nat, 10);
                    }
                }
            }
            vstd::arithmetic::div_mod::lemma_div_denominator(size as int, unit as int, 2);
            assert(unit * 2 == 2 * unit);
            let half = leading / 2;
            assert((2 * unit) * half <= unit * leading) by (nonlinear_arith)
                requires
                    2 * half <= leading,
                    1 <= unit,
            ;
        }
        leading = leading / 2;
        unit = unit * 2;
        dropped = dropped + 1;
    }
    let rest: u64 = size % unit;
    proof {
        assert(excess_bits(leading as nat) == 0);
        assert(unit <= 2048) by {
            lemma2_to64();
            if dropped < 11 {
                lemma_pow2_strictly_increases(dropped as nat, 11);
            }
        }
    }
    if 2 * rest < unit || (2 * rest == unit && leading % 2 == 0) {
        (leading, dropped)
    } else {
        (leading + 1, dropped)
    }
}

impl Dyadic {
    /// The value as a binary64: the mantissa rounded to nearest with ties to
    /// even, at the value's scale. Mantissas below 2^53 in magnitude are exact.
    pub fn to_f64(self) -> (value: Binary64)
        ensures
            spells_dyadic(value@, self.mantissa, self.fractional_bits),
    {
        let size: u64 = problem::unsigned_magnitude(self.mantissa);
        let ghost scale = pow2((1074 - self.fractional_bits) as nat);
        if size >= 2 * IMPLICIT_BIT {
            let (rounded, dropped) = round_long(size);
            let exponent: u64 = 1075 - self.fractional_bits as u64 + dropped;
            proof {
                lemma_pow2_adds(dropped as nat, (1074 - self.fractional_bits) as nat);
                let unit = pow2(dropped as nat);
                assert(rounded * (unit * scale) == (rounded * unit) * scale) by (nonlinear_arith);
            }
            if rounded == 2 * IMPLICIT_BIT {
                proof {
                    lemma_pow2_unfold(exponent as nat);
                    let half = pow2((exponent - 1) as nat);
                    assert(IMPLICIT_BIT * (2 * half) == (2 * IMPLICIT_BIT) * half)
                        by (nonlinear_arith);
                }
                return normal(self.mantissa < 0, IMPLICIT_BIT, exponent + 1);
            }
            return normal(self.mantissa < 0, rounded, exponent);
        }
        proof {
            lemma_short_numbers_are_significant(size as nat);
        }
        if size == 0 {
            proof {
                assert(0 * scale == 0) by (nonlinear_arith);
            }
            return Binary64 { bits: 0 };
        }
        let mut significand: u64 = size;
        let mut doublings: u64 = 0;
        proof {
            lemma2_to64();
        }
        while significand < IMPLICIT_BIT
            invariant
                0 < size < 2 * IMPLICIT_BIT,
                significand == size * pow2(doublings as nat),
                0 < significand < 2 * IMPLICIT_BIT,
                doublings <= 52,
                significand >= pow2(doublings as nat),
            decreases 2 * IMPLICIT_BIT - significand,
        {
            proof {
                lemma_pow2_unfold((doublings + 1) as nat);
                let p = pow2(doublings as nat);
                assert(size * (2 * p) == 2 * (size * p)) by (nonlinear_arith);
                lemma2_to64_rest();
                if doublings == 52 {
                    assert(false);
                }
            }
            significand = significand * 2;
            doublings = doublings + 1;
        }
        let exponent: u64 = 1075 - self.fractional_bits as u64 - doublings;
        proof {
            lemma_pow2_adds(doublings as nat, (exponent - 1) as nat);
            let low = pow2(doublings as nat);
            let high = pow2((exponent - 1) as nat);
            assert((size * low) * high == size * (low * high)) by (nonlinear_arith);
        }
        normal(self.mantissa < 0, significand, exponent)
    }
}

} // verus!
