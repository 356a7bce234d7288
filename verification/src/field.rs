//! The 192-bit prime field of committed values, by canonical representatives.

use vstd::prelude::*;

use crate::bytes;

verus! {

/// Limbs of the field modulus, least significant first.
pub const MODULUS_LOW: u64 = 0x5887_0000_0000_0001;

pub const MODULUS_MIDDLE: u64 = 0x0ad0_a439_abc2_c817;

pub const MODULUS_HIGH: u64 = 0x9b09_ebbd_813f_1e17;

/// The field modulus.
pub open spec fn modulus() -> nat {
    3801539170989320091464968600173246866371124347557388484609nat
}

/// The integer with three limbs of 64 bits, least significant first.
pub open spec fn limbs_value(low: nat, middle: nat, high: nat) -> nat {
    low + 0x1_0000_0000_0000_0000 * middle + 0x1_0000_0000_0000_0000_0000_0000_0000_0000nat * high
}

/// The modulus has its limbs.
pub proof fn lemma_modulus_limbs()
    ensures
        limbs_value(MODULUS_LOW as nat, MODULUS_MIDDLE as nat, MODULUS_HIGH as nat) == modulus(),
        u128::MAX < modulus(),
{
}

/// A field element, held as the limbs of its canonical representative.
#[derive(Debug, PartialEq, Eq)]
pub struct PcsField {
    low: u64,
    middle: u64,
    high: u64,
}

impl View for PcsField {
    type V = nat;

    closed spec fn view(&self) -> nat {
        limbs_value(self.low as nat, self.middle as nat, self.high as nat)
    }
}

impl Clone for PcsField {
    fn clone(&self) -> (copy: Self)
        ensures
            copy == *self,
    {
        *self
    }
}

impl Copy for PcsField {

}

/// The difference of two three-limb integers whose difference fits three limbs.
fn difference(low: u64, middle: u64, high: u128, subtrahend: (u64, u64, u64)) -> (limbs: (
    u64,
    u64,
    u64,
))
    requires
        high < 0x4_0000_0000_0000_0000,
        limbs_value(subtrahend.0 as nat, subtrahend.1 as nat, subtrahend.2 as nat) <= limbs_value(
            low as nat,
            middle as nat,
            high as nat,
        ) < limbs_value(subtrahend.0 as nat, subtrahend.1 as nat, subtrahend.2 as nat)
            + 0x1_0000_0000_0000_0000_0000_0000_0000_0000_0000_0000_0000_0000nat,
    ensures
        limbs_value(limbs.0 as nat, limbs.1 as nat, limbs.2 as nat) == limbs_value(
            low as nat,
            middle as nat,
            high as nat,
        ) - limbs_value(subtrahend.0 as nat, subtrahend.1 as nat, subtrahend.2 as nat),
{
    let (first, borrow): (u64, u64) = if low >= subtrahend.0 {
        (low - subtrahend.0, 0)
    } else {
        (u64::MAX - (subtrahend.0 - low) + 1, 1)
    };
    let taken: u128 = subtrahend.1 as u128 + borrow as u128;
    let (second, carried): (u64, u64) = if middle as u128 >= taken {
        ((middle as u128 - taken) as u64, 0)
    } else {
        ((middle as u128 + 0x1_0000_0000_0000_0000u128 - taken) as u64, 1)
    };
    let third: u128 = high - subtrahend.2 as u128 - carried as u128;
    (first, second, third as u64)
}

impl PcsField {
    #[verifier::type_invariant]
    spec fn inv(self) -> bool {
        self@ < modulus()
    }

    /// The element with a canonical representative, given by its limbs.
    pub fn from_limbs(low: u64, middle: u64, high: u64) -> (element: Option<PcsField>)
        ensures
            (match element {
                Some(found) => found@ == limbs_value(low as nat, middle as nat, high as nat),
                None => limbs_value(low as nat, middle as nat, high as nat) >= modulus(),
            }),
            element is None == (limbs_value(low as nat, middle as nat, high as nat) >= modulus()),
    {
        let canonical = high < MODULUS_HIGH || (high == MODULUS_HIGH && (middle < MODULUS_MIDDLE
            || (middle == MODULUS_MIDDLE && low < MODULUS_LOW)));
        proof {
            lemma_modulus_limbs();
        }
        if canonical {
            Some(PcsField { low, middle, high })
        } else {
            None
        }
    }

    /// The limbs of the canonical representative, least significant first.
    pub fn limbs(&self) -> (limbs: (u64, u64, u64))
        ensures
            limbs_value(limbs.0 as nat, limbs.1 as nat, limbs.2 as nat) == self@,
            self@ < modulus(),
    {
        proof {
            use_type_invariant(self);
        }
        (self.low, self.middle, self.high)
    }

    pub fn from_u64(value: u64) -> (element: PcsField)
        ensures
            element@ == value,
    {
        PcsField { low: value, middle: 0, high: 0 }
    }

    pub fn from_u128(value: u128) -> (element: PcsField)
        ensures
            element@ == value,
    {
        let low: u64 = (value % 0x1_0000_0000_0000_0000) as u64;
        let middle: u64 = (value / 0x1_0000_0000_0000_0000) as u64;
        PcsField { low, middle, high: 0 }
    }

    /// The additive inverse.
    pub fn negate(self) -> (element: PcsField)
        ensures
            element@ == (-(self@ as int)) % (modulus() as int),
    {
        proof {
            use_type_invariant(&self);
            lemma_modulus_limbs();
        }
        if self.low == 0 && self.middle == 0 && self.high == 0 {
            return self;
        }
        let (low, middle, high) = difference(
            MODULUS_LOW,
            MODULUS_MIDDLE,
            MODULUS_HIGH as u128,
            (self.low, self.middle, self.high),
        );
        proof {
            vstd::arithmetic::div_mod::lemma_fundamental_div_mod_converse(
                -(self@ as int),
                modulus() as int,
                -1,
                modulus() - self@,
            );
        }
        PcsField { low, middle, high }
    }

    /// The sum of two elements.
    pub fn plus(self, other: PcsField) -> (element: PcsField)
        ensures
            element@ == (self@ + other@) % modulus(),
    {
        proof {
            use_type_invariant(&self);
            use_type_invariant(&other);
            lemma_modulus_limbs();
        }
        let first: u128 = self.low as u128 + other.low as u128;
        let low: u64 = (first % 0x1_0000_0000_0000_0000) as u64;
        let second: u128 = self.middle as u128 + other.middle as u128 + first
            / 0x1_0000_0000_0000_0000;
        let middle: u64 = (second % 0x1_0000_0000_0000_0000) as u64;
        let high: u128 = self.high as u128 + other.high as u128 + second / 0x1_0000_0000_0000_0000;
        let reduced = high < MODULUS_HIGH as u128 || (high == MODULUS_HIGH as u128 && (middle
            < MODULUS_MIDDLE || (middle == MODULUS_MIDDLE && low < MODULUS_LOW)));
        assert(limbs_value(low as nat, middle as nat, high as nat) == self@ + other@);
        if reduced {
            proof {
                vstd::arithmetic::div_mod::lemma_small_mod(self@ + other@, modulus());
            }
            PcsField { low, middle, high: high as u64 }
        } else {
            let (low, middle, high) = difference(
                low,
                middle,
                high,
                (MODULUS_LOW, MODULUS_MIDDLE, MODULUS_HIGH),
            );
            proof {
                vstd::arithmetic::div_mod::lemma_fundamental_div_mod_converse(
                    (self@ + other@) as int,
                    modulus() as int,
                    1,
                    self@ + other@ - modulus(),
                );
            }
            PcsField { low, middle, high }
        }
    }

    /// Appends the limbs, least significant byte first.
    pub(crate) fn append_to(&self, output: &mut Vec<u8>)
        ensures
            final(output)@ == old(output)@ + bytes::le_bytes(self@, 24),
            self@ < modulus(),
    {
        proof {
            use_type_invariant(self);
        }
        bytes::append_le(output, self.low as u128, 8);
        bytes::append_le(output, self.middle as u128, 8);
        bytes::append_le(output, self.high as u128, 8);
        proof {
            lemma_limb_bytes(self.low, self.middle, self.high);
            assert(output@ =~= old(output)@ + (bytes::le_bytes(self.low as nat, 8)
                + bytes::le_bytes(self.middle as nat, 8) + bytes::le_bytes(self.high as nat, 8)));
        }
    }
}

/// Little-endian bytes of a number split below and above a byte boundary.
proof fn lemma_le_split(value: nat, lower: nat, upper: nat)
    ensures
        bytes::le_bytes(value, lower + upper) == bytes::le_bytes(value, lower) + bytes::le_bytes(
            value / bytes::byte_power(lower),
            upper,
        ),
    decreases lower,
{
    if lower == 0 {
        assert(bytes::byte_power(0) == 1);
        assert(bytes::le_bytes(value, 0) + bytes::le_bytes(value, upper) =~= bytes::le_bytes(
            value,
            upper,
        ));
    } else {
        let rest = (lower - 1) as nat;
        lemma_le_split(value / 256, rest, upper);
        bytes::lemma_byte_power_monotonic(rest, rest);
        vstd::arithmetic::div_mod::lemma_div_denominator(
            value as int,
            256,
            bytes::byte_power(rest) as int,
        );
        lemma_le_step(value, (lower + upper) as nat);
        lemma_le_step(value, lower);
        let head = seq![(value % 256) as u8];
        assert(head + (bytes::le_bytes(value / 256, rest) + bytes::le_bytes(
            value / bytes::byte_power(lower),
            upper,
        )) =~= (head + bytes::le_bytes(value / 256, rest)) + bytes::le_bytes(
            value / bytes::byte_power(lower),
            upper,
        ));
    }
}

proof fn lemma_le_step(value: nat, width: nat)
    requires
        width > 0,
    ensures
        bytes::le_bytes(value, width) == seq![(value % 256) as u8] + bytes::le_bytes(
            value / 256,
            (width - 1) as nat,
        ),
{
    let head = bytes::be_bytes(value / 256, (width - 1) as nat);
    assert(bytes::le_bytes(value, width) =~= seq![(value % 256) as u8] + head.reverse());
}

/// The lowest bytes do not depend on what stands above them.
proof fn lemma_le_low(value: nat, extra: nat, width: nat)
    ensures
        bytes::le_bytes(value + bytes::byte_power(width) * extra, width) == bytes::le_bytes(
            value,
            width,
        ),
    decreases width,
{
    let raised = value + bytes::byte_power(width) * extra;
    if width > 0 {
        let rest = (width - 1) as nat;
        let scaled = bytes::byte_power(rest) * extra;
        assert(raised == value + 256 * scaled) by (nonlinear_arith)
            requires
                raised == value + bytes::byte_power(width) * extra,
                bytes::byte_power(width) == 256 * bytes::byte_power(rest),
                scaled == bytes::byte_power(rest) * extra,
        ;
        assert(raised / 256 == value / 256 + scaled && raised % 256 == value % 256);
        lemma_le_low(value / 256, extra, rest);
        lemma_le_step(value, width);
        lemma_le_step(raised, width);
    } else {
        assert(bytes::le_bytes(raised, 0) =~= bytes::le_bytes(value, 0));
    }
}

proof fn lemma_limb_bytes(low: u64, middle: u64, high: u64)
    ensures
        bytes::le_bytes(limbs_value(low as nat, middle as nat, high as nat), 24)
            == bytes::le_bytes(low as nat, 8) + bytes::le_bytes(middle as nat, 8)
            + bytes::le_bytes(high as nat, 8),
{
    let unit: nat = 0x1_0000_0000_0000_0000;
    let value = limbs_value(low as nat, middle as nat, high as nat);
    let upper = (middle + unit * high) as nat;
    bytes::lemma_byte_powers();
    assert(value == low + unit * upper);
    assert(value / unit == upper);
    assert(upper / unit == high);
    lemma_le_split(value, 8, 16);
    lemma_le_split(upper, 8, 8);
    lemma_le_low(low as nat, upper, 8);
    lemma_le_low(middle as nat, high as nat, 8);
    assert(bytes::le_bytes(low as nat, 8) + (bytes::le_bytes(middle as nat, 8) + bytes::le_bytes(
        high as nat,
        8,
    )) =~= bytes::le_bytes(low as nat, 8) + bytes::le_bytes(middle as nat, 8) + bytes::le_bytes(
        high as nat,
        8,
    ));
}

/// Maps a signed integer into the field without truncation.
///
/// This is an encoding helper only. An opening does not establish a range; an
/// exact backend must prove that separately.
pub fn encode_i128(value: i128) -> (element: PcsField)
    ensures
        element@ == value as int % (modulus() as int),
{
    proof {
        lemma_modulus_limbs();
    }
    if value >= 0 {
        proof {
            vstd::arithmetic::div_mod::lemma_small_mod(value as nat, modulus());
        }
        PcsField::from_u128(value as u128)
    } else if value == i128::MIN {
        PcsField::from_u128(0x8000_0000_0000_0000_0000_0000_0000_0000).negate()
    } else {
        PcsField::from_u128((-value) as u128).negate()
    }
}

/// Signed integers keep their additive inverses, and distinct ones stay
/// distinct.
pub proof fn signed_encodings_are_faithful(first: i128, second: i128)
    ensures
        (first as int % (modulus() as int) + (-(first as int)) % (modulus() as int)) % (
        modulus() as int) == 0,
        first as int % (modulus() as int) == second as int % (modulus() as int) ==> first
            == second,
{
    let p = modulus() as int;
    let image = |value: int|
        if value >= 0 {
            value
        } else {
            value + p
        };
    assert forall|value: int| -p < value < p implies #[trigger] image(value) == value % p by {
        if value >= 0 {
            vstd::arithmetic::div_mod::lemma_small_mod(value as nat, p as nat);
        } else {
            vstd::arithmetic::div_mod::lemma_fundamental_div_mod_converse(value, p, -1, value + p);
        }
    }
    assert(image(first as int) == first as int % p);
    assert(image(-(first as int)) == (-(first as int)) % p);
    assert(image(second as int) == second as int % p);
    if first == 0 {
        vstd::arithmetic::div_mod::lemma_small_mod(0, p as nat);
    } else {
        vstd::arithmetic::div_mod::lemma_mod_self_0(p);
    }
}

} // verus!
