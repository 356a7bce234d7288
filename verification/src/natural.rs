//! Arbitrary-precision integers, held as base 2^32 digits and computed by
//! `num_bigint`.

use num_bigint::{BigInt, BigUint, Sign};
use vstd::prelude::*;

verus! {

/// The value of base 2^32 digits, least significant first.
pub open spec fn digits_value(digits: Seq<u32>) -> nat
    decreases digits.len(),
{
    if digits.len() == 0 {
        0
    } else {
        digits[0] as nat + 0x1_0000_0000 * digits_value(digits.drop_first())
    }
}

/// No leading zero digit: each value has exactly one such spelling.
pub open spec fn canonical_digits(digits: Seq<u32>) -> bool {
    digits.len() == 0 || digits.last() != 0
}

/// The value of a sign and digits.
pub open spec fn signed_value(negative: bool, digits: Seq<u32>) -> int {
    if negative {
        -(digits_value(digits) as int)
    } else {
        digits_value(digits) as int
    }
}

/// Calls `BigUint::new` and `BigUint::to_u32_digits`.
///
/// Claims that leading zero digits are dropped and the value is kept.
#[verifier::external_body]
fn normalized(digits: Vec<u32>) -> (result: Vec<u32>)
    ensures
        digits_value(result@) == digits_value(digits@),
        canonical_digits(result@),
{
    BigUint::new(digits).to_u32_digits()
}

/// Calls addition of `BigUint` values, built by `from_slice` and read by
/// `to_u32_digits`.
///
/// Claims that the result is the sum of the two values.
#[verifier::external_body]
fn natural_sum(left: &[u32], right: &[u32]) -> (result: Vec<u32>)
    ensures
        digits_value(result@) == digits_value(left@) + digits_value(right@),
        canonical_digits(result@),
{
    (BigUint::from_slice(left) + BigUint::from_slice(right)).to_u32_digits()
}

/// Calls multiplication of `BigUint` values.
///
/// Claims that the result is the product of the two values.
#[verifier::external_body]
fn natural_product(left: &[u32], right: &[u32]) -> (result: Vec<u32>)
    ensures
        digits_value(result@) == digits_value(left@) * digits_value(right@),
        canonical_digits(result@),
{
    (BigUint::from_slice(left) * BigUint::from_slice(right)).to_u32_digits()
}

/// Calls the left shift of a `BigUint`.
///
/// Claims that the result is the value times a power of two. Shifts whose
/// result would not fit in memory are excluded.
#[verifier::external_body]
fn natural_shifted(digits: &[u32], bits: u32) -> (result: Vec<u32>)
    requires
        bits <= 4096,
    ensures
        digits_value(result@) == digits_value(digits@) * vstd::arithmetic::power2::pow2(
            bits as nat,
        ),
        canonical_digits(result@),
{
    (BigUint::from_slice(digits) << bits).to_u32_digits()
}

/// Calls the comparison of two `BigUint` values.
///
/// Claims that values are compared as numbers.
#[verifier::external_body]
fn natural_at_most(left: &[u32], right: &[u32]) -> (result: bool)
    ensures
        result == (digits_value(left@) <= digits_value(right@)),
{
    BigUint::from_slice(left) <= BigUint::from_slice(right)
}

/// Calls multiplication of `BigInt` values made from primitive integers.
///
/// Claims that the result is the exact product.
#[verifier::external_body]
fn integer_product(left: i64, right: i128) -> (result: (bool, Vec<u32>))
    ensures
        signed_value(result.0, result.1@) == left * right,
{
    let (sign, digits) = (BigInt::from(left) * BigInt::from(right)).to_u32_digits();
    (sign == Sign::Minus, digits)
}

/// Calls addition of `BigInt` values, built by `from_slice` and read by
/// `to_u32_digits`.
///
/// Claims that the result is the sum of the two values.
#[verifier::external_body]
fn integer_sum(left: (bool, &[u32]), right: (bool, &[u32])) -> (result: (bool, Vec<u32>))
    ensures
        signed_value(result.0, result.1@) == signed_value(left.0, left.1@) + signed_value(
            right.0,
            right.1@,
        ),
{
    let first = BigInt::from_slice(if left.0 { Sign::Minus } else { Sign::Plus }, left.1);
    let second = BigInt::from_slice(if right.0 { Sign::Minus } else { Sign::Plus }, right.1);
    let (sign, digits) = (first + second).to_u32_digits();
    (sign == Sign::Minus, digits)
}

/// Calls subtraction of `BigInt` values.
///
/// Claims that the result is the difference of the two values.
#[verifier::external_body]
fn integer_difference(left: (bool, &[u32]), right: (bool, &[u32])) -> (result: (bool, Vec<u32>))
    ensures
        signed_value(result.0, result.1@) == signed_value(left.0, left.1@) - signed_value(
            right.0,
            right.1@,
        ),
{
    let first = BigInt::from_slice(if left.0 { Sign::Minus } else { Sign::Plus }, left.1);
    let second = BigInt::from_slice(if right.0 { Sign::Minus } else { Sign::Plus }, right.1);
    let (sign, digits) = (first - second).to_u32_digits();
    (sign == Sign::Minus, digits)
}

/// Calls the left shift of a `BigInt` made from a primitive integer.
///
/// Claims that the result is the value times a power of two. Shifts whose
/// result would not fit in memory are excluded.
#[verifier::external_body]
fn integer_shifted(value: i64, bits: u32) -> (result: (bool, Vec<u32>))
    requires
        bits <= 4096,
    ensures
        signed_value(result.0, result.1@) == value * vstd::arithmetic::power2::pow2(bits as nat),
{
    let (sign, digits) = (BigInt::from(value) << bits).to_u32_digits();
    (sign == Sign::Minus, digits)
}

/// Calls `i128::try_from` on a `BigInt`.
///
/// Claims that the conversion gives the value, exactly when it fits.
#[verifier::external_body]
fn integer_narrowed(value: (bool, &[u32])) -> (result: Option<i128>)
    ensures
        i128::MIN <= signed_value(value.0, value.1@) <= i128::MAX ==> result == Some(
            signed_value(value.0, value.1@) as i128,
        ),
        !(i128::MIN <= signed_value(value.0, value.1@) <= i128::MAX) ==> result is None,
{
    let sign = if value.0 { Sign::Minus } else { Sign::Plus };
    i128::try_from(BigInt::from_slice(sign, value.1)).ok()
}

/// A natural number of any size.
#[derive(Debug, PartialEq, Eq)]
pub struct Natural {
    digits: Vec<u32>,
}

impl View for Natural {
    type V = nat;

    closed spec fn view(&self) -> nat {
        digits_value(self.digits@)
    }
}

impl Clone for Natural {
    fn clone(&self) -> (copy: Self)
        ensures
            copy@ == self@,
    {
        proof {
            use_type_invariant(self);
        }
        Natural { digits: vstd::slice::slice_to_vec(self.digits.as_slice()) }
    }
}

impl Natural {
    #[verifier::type_invariant]
    spec fn inv(self) -> bool {
        canonical_digits(self.digits@)
    }

    /// The number that base 2^32 digits spell, least significant first.
    pub fn from_digits(digits: Vec<u32>) -> (number: Natural)
        ensures
            number@ == digits_value(digits@),
    {
        Natural { digits: normalized(digits) }
    }

    pub fn from_u64(value: u64) -> (number: Natural)
        ensures
            number@ == value,
    {
        let mut digits: Vec<u32> = Vec::new();
        digits.push((value % 0x1_0000_0000) as u32);
        digits.push((value / 0x1_0000_0000) as u32);
        proof {
            reveal_with_fuel(digits_value, 3);
            let low = digits@[0] as nat;
            let high = digits@[1] as nat;
            assert(digits@.drop_first()[0] == digits@[1]);
            assert(digits@.drop_first().drop_first().len() == 0);
        }
        Natural::from_digits(digits)
    }

    pub fn from_u128(value: u128) -> (number: Natural)
        ensures
            number@ == value,
    {
        let high = Natural::from_u64((value / 0x1_0000_0000_0000_0000) as u64);
        let low = Natural::from_u64((value % 0x1_0000_0000_0000_0000) as u64);
        proof {
            vstd::arithmetic::power2::lemma2_to64();
        }
        high.shifted(64).plus(&low)
    }

    /// Digits in base 2^32, least significant first, without leading zeros.
    pub fn digits(&self) -> (digits: &[u32])
        ensures
            digits_value(digits@) == self@,
            canonical_digits(digits@),
    {
        proof {
            use_type_invariant(self);
        }
        self.digits.as_slice()
    }

    pub fn plus(&self, other: &Natural) -> (sum: Natural)
        ensures
            sum@ == self@ + other@,
    {
        Natural { digits: natural_sum(self.digits.as_slice(), other.digits.as_slice()) }
    }

    pub fn times(&self, other: &Natural) -> (product: Natural)
        ensures
            product@ == self@ * other@,
    {
        Natural { digits: natural_product(self.digits.as_slice(), other.digits.as_slice()) }
    }

    /// The number times a power of two.
    pub fn shifted(&self, bits: u32) -> (number: Natural)
        requires
            bits <= 4096,
        ensures
            number@ == self@ * vstd::arithmetic::power2::pow2(bits as nat),
    {
        Natural { digits: natural_shifted(self.digits.as_slice(), bits) }
    }

    pub fn at_most(&self, other: &Natural) -> (result: bool)
        ensures
            result == (self@ <= other@),
    {
        natural_at_most(self.digits.as_slice(), other.digits.as_slice())
    }

    pub fn is_zero(&self) -> (zero: bool)
        ensures
            zero == (self@ == 0),
    {
        self.at_most(&Natural::from_u64(0))
    }
}

/// An integer of any size.
#[derive(Debug)]
pub(crate) struct Integer {
    negative: bool,
    digits: Vec<u32>,
}

impl View for Integer {
    type V = int;

    closed spec fn view(&self) -> int {
        signed_value(self.negative, self.digits@)
    }
}

impl Integer {
    pub(crate) fn zero() -> (number: Integer)
        ensures
            number@ == 0,
    {
        Integer { negative: false, digits: Vec::new() }
    }

    pub(crate) fn product(left: i64, right: i128) -> (number: Integer)
        ensures
            number@ == left * right,
    {
        let (negative, digits) = integer_product(left, right);
        Integer { negative, digits }
    }

    /// A primitive integer times a power of two.
    pub(crate) fn shifted(value: i64, bits: u32) -> (number: Integer)
        requires
            bits <= 4096,
        ensures
            number@ == value * vstd::arithmetic::power2::pow2(bits as nat),
    {
        let (negative, digits) = integer_shifted(value, bits);
        Integer { negative, digits }
    }

    pub(crate) fn plus(&self, other: &Integer) -> (number: Integer)
        ensures
            number@ == self@ + other@,
    {
        let (negative, digits) = integer_sum(
            (self.negative, self.digits.as_slice()),
            (other.negative, other.digits.as_slice()),
        );
        Integer { negative, digits }
    }

    pub(crate) fn minus(&self, other: &Integer) -> (number: Integer)
        ensures
            number@ == self@ - other@,
    {
        let (negative, digits) = integer_difference(
            (self.negative, self.digits.as_slice()),
            (other.negative, other.digits.as_slice()),
        );
        Integer { negative, digits }
    }

    /// The value as a 128-bit integer, where it fits.
    pub(crate) fn narrowed(&self) -> (value: Option<i128>)
        ensures
            i128::MIN <= self@ <= i128::MAX ==> value == Some(self@ as i128),
            !(i128::MIN <= self@ <= i128::MAX) ==> value is None,
    {
        integer_narrowed((self.negative, self.digits.as_slice()))
    }
}

} // verus!
