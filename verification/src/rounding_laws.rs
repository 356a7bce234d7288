//! How binary64 values are rounded to fixed point, and dyadics to binary64, and
//! which values a solution or a point can hold.

use vstd::arithmetic::power2::*;
use vstd::prelude::*;

use crate::binary64;
use crate::binary64::Binary64;
use crate::evaluator;
use crate::evaluator::MleEvaluationError;
use crate::problem;
use crate::solution;
use crate::solution::{DocumentModel, Solution, SolutionError, SolutionField};

verus! {

/// A rounded quotient lies within half a unit of the exact one, and a tie goes
/// up.
proof fn lemma_nearest(numerator: nat, denominator: nat)
    requires
        0 < denominator,
    ensures
        ({
            let rounded = binary64::nearest(numerator, denominator) as int;
            &&& 2 * (rounded * denominator - numerator) <= denominator
            &&& 2 * (numerator - rounded * denominator) < denominator
        }),
{
    let rounded = binary64::nearest(numerator, denominator) as int;
    let doubled = (2 * numerator + denominator) as int;
    let divisor = (2 * denominator) as int;
    assert(divisor * rounded <= doubled < divisor * rounded + divisor) by (nonlinear_arith)
        requires
            rounded == doubled / divisor,
            0 < divisor,
    ;
    assert(divisor * rounded == 2 * (rounded * denominator)) by (nonlinear_arith)
        requires
            divisor == 2 * denominator,
    ;
}

/// A value converts to the signed Q63.64 number nearest to it, with ties away
/// from zero: the error is at most half a unit of 2^-64, and the sign is kept.
/// Both are stated in units of 2^-1074, of which every finite binary64 is a whole
/// number. Only values that solutions refuse, and those out of range, have none.
pub proof fn conversions_round_to_nearest(bits: u64)
    ensures
        match binary64::fixed_point(bits) {
            Some(fixed) => {
                let size = problem::magnitude(fixed as int);
                &&& solution::value_error(0, bits) is None
                &&& 2 * (size * pow2(1010) - binary64::unit_magnitude(bits)) <= pow2(1010)
                &&& 2 * (binary64::unit_magnitude(bits) - size * pow2(1010)) < pow2(1010)
                &&& bits >= 0x8000_0000_0000_0000 ==> fixed <= 0
                &&& bits < 0x8000_0000_0000_0000 ==> 0 <= fixed
            },
            None => solution::value_error(0, bits) is Some || 2 * binary64::unit_magnitude(bits)
                >= (0xffff_ffff_ffff_ffff_ffff_ffff_ffff_ffff as nat) * pow2(1010),
        },
{
    let numerator = binary64::unit_magnitude(bits);
    lemma_pow2_pos(1010);
    lemma_nearest(numerator, pow2(1010));
    let rounded = binary64::nearest(numerator, pow2(1010));
    if binary64::fixed_point(bits) is None && solution::value_error(0, bits) is None {
        assert(rounded >= 0x8000_0000_0000_0000_0000_0000_0000_0000);
        assert(2 * (rounded * pow2(1010)) >= (0x1_0000_0000_0000_0000_0000_0000_0000_0000 as nat)
            * pow2(1010)) by (nonlinear_arith)
            requires
                rounded >= 0x8000_0000_0000_0000_0000_0000_0000_0000,
                0 < pow2(1010),
        ;
        assert((0x1_0000_0000_0000_0000_0000_0000_0000_0000 as nat) * pow2(1010)
            == (0xffff_ffff_ffff_ffff_ffff_ffff_ffff_ffff as nat) * pow2(1010) + pow2(1010))
            by (nonlinear_arith);
    }
}

/// How many bits beyond 53 a number has: none where it fits, and otherwise just
/// so many that the rest fills 53 bits.
proof fn lemma_excess(size: nat)
    ensures
        ({
            let excess = binary64::excess_bits(size);
            &&& size < 0x20_0000_0000_0000 * pow2(excess)
            &&& excess > 0 ==> 0x10_0000_0000_0000 * pow2(excess) <= size
        }),
    decreases size,
{
    lemma2_to64();
    if size >= 0x20_0000_0000_0000 {
        let half = size / 2;
        lemma_excess(half);
        let inner = binary64::excess_bits(half);
        lemma_pow2_unfold(inner + 1);
        assert(size < 0x20_0000_0000_0000 * pow2(inner + 1)) by (nonlinear_arith)
            requires
                half < 0x20_0000_0000_0000 * pow2(inner),
                size <= 2 * half + 1,
                pow2(inner + 1) == 2 * pow2(inner),
        ;
        if inner > 0 {
            assert(0x10_0000_0000_0000 * pow2(inner + 1) <= size) by (nonlinear_arith)
                requires
                    0x10_0000_0000_0000 * pow2(inner) <= half,
                    2 * half <= size,
                    pow2(inner + 1) == 2 * pow2(inner),
            ;
        }
    }
}

/// A magnitude is rounded to one of 53 significant bits, the nearest one, and
/// between two equally near ones to that whose last bit is zero. Magnitudes that
/// binary64 holds stay as they are.
pub proof fn dyadics_round_to_nearest_even(size: nat) -> (parts: (nat, nat))
    ensures
        binary64::significant(size) == parts.0 * pow2(parts.1),
        parts.0 <= 0x20_0000_0000_0000,
        size < 0x20_0000_0000_0000 ==> binary64::significant(size) == size,
        parts.1 > 0 ==> 0x10_0000_0000_0000 * pow2(parts.1) <= size,
        2 * (binary64::significant(size) - size) <= pow2(parts.1),
        2 * (size - binary64::significant(size)) <= pow2(parts.1),
        2 * (binary64::significant(size) - size) == pow2(parts.1) || 2 * (size
            - binary64::significant(size)) == pow2(parts.1) ==> parts.0 % 2 == 0,
{
    let excess = binary64::excess_bits(size);
    let unit = pow2(excess);
    let quotient = size / unit;
    let remainder = size % unit;
    lemma_excess(size);
    lemma_pow2_pos(excess);
    assert(size == quotient * unit + remainder && remainder < unit) by (nonlinear_arith)
        requires
            quotient == size / unit,
            remainder == size % unit,
            0 < unit,
    ;
    assert(quotient < 0x20_0000_0000_0000) by (nonlinear_arith)
        requires
            size < 0x20_0000_0000_0000 * unit,
            size == quotient * unit + remainder,
            0 <= remainder,
            0 < unit,
    ;
    let rounded = binary64::nearest_even(size, unit);
    assert((quotient + 1) * unit == quotient * unit + unit) by (nonlinear_arith);
    if size < 0x20_0000_0000_0000 {
        binary64::lemma_short_numbers_are_significant(size);
    }
    if excess == 0 {
        lemma2_to64();
    }
    (rounded, excess)
}

/// What the conversion of a dyadic spells: a finite number of its sign whose
/// magnitude is the mantissa's, rounded, scaled by the fractional bits.
pub proof fn converted_dyadics_keep_sign_and_scale(bits: u64, mantissa: i64, fractional_bits: u8)
    requires
        binary64::spells_dyadic(bits, mantissa, fractional_bits),
    ensures
        binary64::finite(bits),
        bits >= 0x8000_0000_0000_0000 <==> mantissa < 0,
        binary64::unit_magnitude(bits) * pow2(fractional_bits as nat) == binary64::significant(
            problem::magnitude(mantissa as int),
        ) * pow2(1074),
{
    let size = binary64::significant(problem::magnitude(mantissa as int));
    lemma_pow2_adds((1074 - fractional_bits) as nat, fractional_bits as nat);
    assert((size * pow2((1074 - fractional_bits) as nat)) * pow2(fractional_bits as nat) == size * (
    pow2((1074 - fractional_bits) as nat) * pow2(fractional_bits as nat))) by (nonlinear_arith);
}

/// Which bit patterns a solution accepts: finite numbers that are neither a
/// negative zero nor subnormal.
pub proof fn solution_values_are_canonical(index: int, bits: u64)
    ensures
        solution::value_error(index, bits) is None <==> {
            &&& (bits / 0x10_0000_0000_0000) % 2048 != 2047
            &&& bits != 0x8000_0000_0000_0000
            &&& (bits / 0x10_0000_0000_0000) % 2048 == 0 ==> bits % 0x10_0000_0000_0000 == 0
        },
{
}

/// A vector becomes a solution where it has the expected length and every value
/// is canonical. It is refused for its length, or else for its first value that
/// is not.
pub proof fn solutions_are_refused_at_the_first_value(
    values: Seq<Binary64>,
    expected_len: usize,
    result: Result<Solution, SolutionError>,
    index: int,
)
    requires
        solution::solution_outcome(values, expected_len, result),
        values.len() <= usize::MAX,
    ensures
        result is Ok <==> values.len() == expected_len && forall|i: int|
            0 <= i < values.len() ==> solution::value_error(i, #[trigger] values[i]@) is None,
        result matches Ok(accepted) ==> accepted@ == values,
        values.len() != expected_len ==> result == Err::<Solution, SolutionError>(
            SolutionError::WrongLength { expected: expected_len, actual: values.len() as usize },
        ),
        values.len() == expected_len && 0 <= index < values.len() && solution::value_error(
            index,
            values[index]@,
        ) is Some && (forall|before: int|
            0 <= before < index ==> solution::value_error(before, #[trigger] values[before]@)
                is None) ==> result == Err::<Solution, SolutionError>(
            solution::value_error(index, values[index]@)->0,
        ),
{
    if values.len() == expected_len && result is Err {
        let found = choose|i: int|
            0 <= i < values.len() && solution::value_error(i, #[trigger] values[i]@) == Some(
                result->Err_0,
            ) && solution::valid_values(values.take(i));
        assert(solution::value_error(found, values[found]@) is Some);
        assert forall|before: int| 0 <= before < found implies solution::value_error(
            before,
            #[trigger] values[before]@,
        ) is None by {
            assert(values.take(found)[before] == values[before]);
        }
    }
}

/// A document's list takes one more value while it is short of the expected
/// length, the decimal has at most 128 bytes, and it spells a canonical value;
/// the values before it stay.
pub proof fn documents_take_canonical_values(
    document: DocumentModel,
    decimal_len: nat,
    parsed: Option<Binary64>,
)
    requires
        document.values is Some,
    ensures
        ({
            let values = document.values->0;
            let step = solution::value_step(document, decimal_len, parsed);
            &&& step is Ok <==> {
                &&& values.len() < document.expected_len
                &&& decimal_len <= 128
                &&& parsed matches Some(value)
                &&& solution::value_error(values.len() as int, value@) is None
            }
            &&& step matches Ok(longer) ==> longer == values.push(parsed->0)
            &&& values.len() >= document.expected_len ==> step == Err::<
                Seq<Binary64>,
                SolutionError,
            >(SolutionError::TooManyValues { expected: document.expected_len })
        }),
{
}

/// Values are refused for what they are: NaNs and infinities, negative zero, and
/// subnormal numbers each by their own error.
pub proof fn refused_values_are_named(index: int, bits: u64)
    ensures
        (bits / 0x10_0000_0000_0000) % 2048 == 2047 <==> solution::value_error(index, bits) == Some(
            SolutionError::NonFinite { index: index as usize },
        ),
        bits == 0x8000_0000_0000_0000 <==> solution::value_error(index, bits) == Some(
            SolutionError::NegativeZero { index: index as usize },
        ),
        (bits / 0x10_0000_0000_0000) % 2048 == 0 && bits % 0x10_0000_0000_0000 != 0
            <==> solution::value_error(index, bits) == Some(
            SolutionError::Subnormal { index: index as usize },
        ),
{
}

/// A challenge coordinate is a canonical value from zero to one.
pub proof fn unit_coordinates_are_canonical(bits: u64)
    ensures
        binary64::unit_coordinate(bits) <==> {
            &&& solution::value_error(0, bits) is None
            &&& bits < 0x8000_0000_0000_0000
            &&& binary64::unit_magnitude(bits) <= pow2(1074)
        },
{
}

/// A point is accepted where it has a coordinate for each variable and each is a
/// unit coordinate; it is refused for its length, or else for its first other
/// coordinate.
pub proof fn points_are_refused_at_the_first_coordinate(
    name: &'static str,
    point: Seq<Binary64>,
    expected: nat,
    result: Result<(), MleEvaluationError>,
    index: int,
)
    requires
        evaluator::point_outcome(name, point, expected, result),
    ensures
        result is Ok <==> point.len() == expected && forall|i: int|
            0 <= i < point.len() ==> binary64::unit_coordinate(#[trigger] point[i]@),
        point.len() != expected ==> result == Err::<(), MleEvaluationError>(
            MleEvaluationError::PointDimension {
                point: name,
                expected: expected as usize,
                actual: point.len() as usize,
            },
        ),
        point.len() == expected && 0 <= index < point.len() && !binary64::unit_coordinate(
            point[index]@,
        ) && (forall|before: int|
            0 <= before < index ==> binary64::unit_coordinate(#[trigger] point[before]@))
            ==> result == Err::<(), MleEvaluationError>(
            MleEvaluationError::InvalidBinary64Coordinate { point: name, index: index as usize },
        ),
{
}

/// A document has two fields, each under its own name.
pub proof fn documents_have_two_fields(name: Seq<char>)
    ensures
        match solution::field_of(name) {
            Some(SolutionField::Schema) => name == "schema"@,
            Some(SolutionField::Values) => name == "values"@,
            None => name != "schema"@ && name != "values"@,
        },
        solution::field_of("schema"@) == Some(SolutionField::Schema),
        solution::field_of("values"@) == Some(SolutionField::Values),
{
    reveal_strlit("schema");
    reveal_strlit("values");
    assert("schema"@[0] != "values"@[0]);
}

} // verus!
