//! Backend-neutral, verifier-cheap evaluations of registered public data.
//!
//! A random-access row generator is sufficient for a prover scan, but a
//! succinct verifier needs a stronger capability: it must evaluate the
//! multilinear extensions of the public matrix and right-hand side without
//! visiting every row. [`PublicEvaluationPlan`] is that capability for a
//! compiled problem.
//!
//! Coordinates are most-significant first: `point[0]` selects the low or high
//! half of the padded table, while the last coordinate selects adjacent
//! entries. Logical indices occupy `0..dimension`; the remainder of the
//! next-power-of-two domain is exactly zero.

use vstd::arithmetic::power2::*;
use vstd::prelude::*;

use crate::binary64;
use crate::binary64::Binary64;
use crate::evaluation;
use crate::generated;
use crate::generated::GeneratedProblem;
use crate::generator;
use crate::generator::{GeneratedModel, RhsModel};
use crate::matrix::MatrixModel;
use crate::mle;
use crate::mle::{Arithmetic, MleInterpreter, PublicEvaluationWork, ScalarOps};
use crate::powers;
use crate::problem;

verus! {

/// The one registered Boolean-coordinate convention.
#[derive(Clone, Copy, Debug, PartialEq, Eq, Hash, Structural)]
pub enum BooleanCoordinateOrder {
    /// Coordinate zero is the most-significant Boolean index bit.
    MostSignificantFirst,
}

/// Logical and zero-padded domain information for a public multilinear
/// extension.
#[derive(Clone, Copy, Debug, PartialEq, Eq, Hash, Structural)]
pub struct MleDomain {
    pub logical_dimension: usize,
    pub padded_dimension: usize,
    pub variables: usize,
    pub coordinate_order: BooleanCoordinateOrder,
}

/// Exact, generator-derived coefficient bounds.
///
/// These values are recomputed from the compiled public generator. A proof is
/// never allowed to supply or weaken them.
#[derive(Clone, Copy, Debug, PartialEq, Eq, Hash, Structural)]
pub struct ExactArithmeticBounds {
    pub logical_dimension: usize,
    pub matrix_fractional_bits: u8,
    pub rhs_fractional_bits: u8,
    pub maximum_absolute_row_sum_mantissa: u64,
    pub maximum_absolute_rhs_mantissa: u64,
}

/// Conservative powers-of-two bounds for an exact integer relation.
///
/// A field modulus at least `2^minimum_safe_modulus_bits` is sufficient for
/// the row-identity and residual-norm differences described here not to wrap.
/// The backend must still enforce the witness and residual ranges used as
/// inputs to [`ExactArithmeticBounds::no_wrap_diagnostics`].
#[derive(Clone, Copy, Debug, PartialEq, Eq, Hash, Structural)]
pub struct ExactNoWrapDiagnostics {
    pub relation_fractional_bits: u32,
    pub matrix_term_alignment_shift: u32,
    pub rhs_alignment_shift: u32,
    pub matrix_vector_absolute_value_strict_bound_bits: u32,
    pub rhs_absolute_value_strict_bound_bits: u32,
    pub row_identity_difference_strict_bound_bits: u32,
    pub residual_norm_strict_bound_bits: u32,
    pub norm_identity_difference_strict_bound_bits: u32,
    pub minimum_safe_modulus_bits: u32,
}

/// Public structure and cost bounds shared by all succinct backends.
#[derive(Clone, Copy, Debug, PartialEq, Eq, Hash, Structural)]
pub struct PublicEvaluationMetadata {
    /// Reviewed semantics/version of the compiled public evaluator plan.
    pub evaluator_version: u16,
    pub domain: MleDomain,
    /// Maximum matrix-period patterns examined by one evaluation.
    pub matrix_period_terms: usize,
    /// Maximum right-hand-side patterns examined by one evaluation.
    pub rhs_period_terms: usize,
    pub exact_bounds: ExactArithmeticBounds,
}

/// A mantissa-valued public multilinear extension and its common dyadic scale.
#[derive(Clone, Copy, Debug, PartialEq, Eq)]
pub struct MleEvaluation<T> {
    pub value: T,
    pub fractional_bits: u8,
    pub work: PublicEvaluationWork,
}

#[derive(Clone, Copy, Debug, PartialEq, Eq)]
pub enum MleEvaluationError {
    /// A point has the wrong number of coordinates.
    PointDimension { point: &'static str, expected: usize, actual: usize },
    /// A coordinate is not a canonical binary64 challenge in `[0, 1]`.
    InvalidBinary64Coordinate { point: &'static str, index: usize },
    /// A binary64 evaluation produced a non-finite value or error bound.
    NonFiniteBinary64Evaluation,
    /// An integer overflowed while exact no-wrap bounds were derived.
    ArithmeticBoundsOverflow,
}

/// The number of binary digits of a value.
pub open spec fn bit_length(value: nat) -> nat {
    powers::ceil_log2(value + 1)
}

/// The larger of two numbers.
pub open spec fn larger(left: int, right: int) -> int {
    if left < right {
        right
    } else {
        left
    }
}

impl ExactArithmeticBounds {
    /// The no-wrap requirements of a witness and residual range.
    pub open spec fn diagnosed(
        self,
        witness_magnitude_bits: u16,
        witness_fractional_bits: u8,
        residual_magnitude_bits: u16,
        diagnostics: ExactNoWrapDiagnostics,
    ) -> bool {
        let matrix_scale = self.matrix_fractional_bits + witness_fractional_bits;
        let rhs_scale = self.rhs_fractional_bits as int;
        let relation = larger(matrix_scale, rhs_scale);
        let matrix_bits = bit_length(self.maximum_absolute_row_sum_mantissa as nat)
            + witness_magnitude_bits + (relation - matrix_scale);
        let rhs_bits = bit_length(self.maximum_absolute_rhs_mantissa as nat) + (relation
            - rhs_scale);
        let row_bits = larger(larger(matrix_bits, rhs_bits), residual_magnitude_bits as int) + 2;
        let norm_bits = 2 * residual_magnitude_bits + powers::ceil_log2(
            self.logical_dimension as nat,
        );
        &&& diagnostics.relation_fractional_bits == relation
        &&& diagnostics.matrix_term_alignment_shift == relation - matrix_scale
        &&& diagnostics.rhs_alignment_shift == relation - rhs_scale
        &&& diagnostics.matrix_vector_absolute_value_strict_bound_bits == matrix_bits
        &&& diagnostics.rhs_absolute_value_strict_bound_bits == rhs_bits
        &&& diagnostics.row_identity_difference_strict_bound_bits == row_bits
        &&& diagnostics.residual_norm_strict_bound_bits == norm_bits
        &&& diagnostics.norm_identity_difference_strict_bound_bits == norm_bits + 1
        &&& diagnostics.minimum_safe_modulus_bits == larger(row_bits, norm_bits + 1) + 1
    }

    /// Derives conservative no-wrap requirements for a fixed-point backend.
    ///
    /// `witness_magnitude_bits` means every witness integer has absolute value
    /// strictly below `2^witness_magnitude_bits`. `residual_magnitude_bits` has
    /// the analogous meaning for the backend-constrained residual integer. The
    /// residual is represented at the returned relation scale.
    pub fn no_wrap_diagnostics(
        self,
        witness_magnitude_bits: u16,
        witness_fractional_bits: u8,
        residual_magnitude_bits: u16,
    ) -> (result: Result<ExactNoWrapDiagnostics, MleEvaluationError>)
        ensures
            result matches Ok(diagnostics) && self.diagnosed(
                witness_magnitude_bits,
                witness_fractional_bits,
                residual_magnitude_bits,
                diagnostics,
            ),
    {
        let matrix_scale: u32 = self.matrix_fractional_bits as u32
            + witness_fractional_bits as u32;
        let rhs_scale: u32 = self.rhs_fractional_bits as u32;
        let relation_fractional_bits: u32 = if matrix_scale < rhs_scale {
            rhs_scale
        } else {
            matrix_scale
        };
        let matrix_term_alignment_shift: u32 = relation_fractional_bits - matrix_scale;
        let rhs_alignment_shift: u32 = relation_fractional_bits - rhs_scale;
        let matrix_bits: u32 = strict_u64_bound_bits(self.maximum_absolute_row_sum_mantissa)
            + witness_magnitude_bits as u32 + matrix_term_alignment_shift;
        let rhs_bits: u32 = strict_u64_bound_bits(self.maximum_absolute_rhs_mantissa)
            + rhs_alignment_shift;
        let residual_bits: u32 = residual_magnitude_bits as u32;
        // |Ax - b - R| is a sum of three quantities, each strictly below
        // 2^max_bits. Two additional bits are a simple conservative bound.
        let mut largest: u32 = if matrix_bits < rhs_bits {
            rhs_bits
        } else {
            matrix_bits
        };
        if largest < residual_bits {
            largest = residual_bits;
        }
        let row_bits: u32 = largest + 2;
        let norm_bits: u32 = residual_bits * 2 + ceil_log2(self.logical_dimension);
        // Both the recomputed norm and the claimed, range-checked norm are
        // below the preceding bound.
        let norm_difference_bits: u32 = norm_bits + 1;
        let safe_bits: u32 = if row_bits < norm_difference_bits {
            norm_difference_bits + 1
        } else {
            row_bits + 1
        };
        Ok(
            ExactNoWrapDiagnostics {
                relation_fractional_bits,
                matrix_term_alignment_shift,
                rhs_alignment_shift,
                matrix_vector_absolute_value_strict_bound_bits: matrix_bits,
                rhs_absolute_value_strict_bound_bits: rhs_bits,
                row_identity_difference_strict_bound_bits: row_bits,
                residual_norm_strict_bound_bits: norm_bits,
                norm_identity_difference_strict_bound_bits: norm_difference_bits,
                minimum_safe_modulus_bits: safe_bits,
            },
        )
    }
}

/// The least exponent whose power of two covers a value of at most 64 bits.
fn covering_exponent(value: u128) -> (exponent: u32)
    requires
        0 < value <= 0x1_0000_0000_0000_0000,
    ensures
        exponent == powers::ceil_log2(value as nat),
        exponent <= 64,
{
    proof {
        lemma2_to64();
    }
    let mut power: u128 = 1;
    let mut exponent: u32 = 0;
    while power < value
        invariant
            0 < value <= 0x1_0000_0000_0000_0000,
            exponent <= 64,
            power == pow2(exponent as nat),
            0 < exponent ==> pow2((exponent - 1) as nat) < value,
            pow2(64) == 0x1_0000_0000_0000_0000,
        decreases 64 - exponent,
    {
        proof {
            lemma_pow2_unfold((exponent + 1) as nat);
            if exponent < 64 {
                lemma_pow2_strictly_increases(exponent as nat, 64);
            }
        }
        power = power * 2;
        exponent = exponent + 1;
    }
    proof {
        powers::lemma_padded_unique(value as nat, exponent as nat);
    }
    exponent
}

fn strict_u64_bound_bits(value: u64) -> (bits: u32)
    ensures
        bits == bit_length(value as nat),
        bits <= 64,
{
    covering_exponent(value as u128 + 1)
}

fn ceil_log2(value: usize) -> (bits: u32)
    ensures
        bits == powers::ceil_log2(value as nat),
        bits <= 64,
{
    if value <= 1 {
        0
    } else {
        covering_exponent(value as u128)
    }
}

/// The metadata of a compiled problem's public evaluations.
pub open spec fn metadata_of(
    model: GeneratedModel,
    certificate: generator::GeneratorCertificate,
    metadata: PublicEvaluationMetadata,
) -> bool {
    let dimension = model.matrix.dimension();
    let padded = powers::padded(dimension);
    &&& metadata.evaluator_version == 1
    &&& metadata.domain.logical_dimension == dimension
    &&& metadata.domain.padded_dimension == padded
    &&& metadata.domain.variables == powers::ceil_log2(dimension)
    &&& metadata.domain.coordinate_order == BooleanCoordinateOrder::MostSignificantFirst
    &&& metadata.matrix_period_terms == if model.matrix is Tridiagonal
        && padded < certificate.matrix_period {
        padded as int
    } else {
        certificate.matrix_period as int
    }
    &&& metadata.rhs_period_terms == if padded < certificate.rhs_period {
        padded as int
    } else {
        certificate.rhs_period as int
    }
    &&& metadata.exact_bounds == exact_bounds_of(certificate)
}

/// The coefficient bounds that a certificate gives.
pub open spec fn exact_bounds_of(certificate: generator::GeneratorCertificate) -> ExactArithmeticBounds {
    ExactArithmeticBounds {
        logical_dimension: certificate.dimension,
        matrix_fractional_bits: certificate.coefficient_fractional_bits,
        rhs_fractional_bits: certificate.rhs_fractional_bits,
        maximum_absolute_row_sum_mantissa: certificate.maximum_absolute_row_sum_mantissa_bound,
        maximum_absolute_rhs_mantissa: certificate.maximum_absolute_rhs_mantissa,
    }
}

/// The refusal of a point with the wrong number of coordinates.
pub open spec fn point_error(name: &'static str, expected: nat, actual: nat) -> MleEvaluationError {
    MleEvaluationError::PointDimension {
        point: name,
        expected: expected as usize,
        actual: actual as usize,
    }
}

/// What a matrix evaluation gives.
pub open spec fn evaluates_matrix<S>(
    result: Result<MleEvaluation<S>, MleEvaluationError>,
    ops: ScalarOps<S>,
    matrix: MatrixModel,
    row: Seq<S>,
    column: Seq<S>,
) -> bool {
    let variables = powers::ceil_log2(matrix.dimension());
    if row.len() != variables {
        result == Err::<MleEvaluation<S>, MleEvaluationError>(
            point_error("row", variables, row.len()),
        )
    } else if column.len() != variables {
        result == Err::<MleEvaluation<S>, MleEvaluationError>(
            point_error("column", variables, column.len()),
        )
    } else {
        result matches Ok(evaluation) && evaluation.value == evaluation::matrix_value(
            ops,
            matrix,
            row,
            column,
        ) && evaluation.fractional_bits == matrix.fractional_bits() && evaluation.work@
            == evaluation::matrix_work(matrix)
    }
}

/// What a right-hand-side evaluation gives.
pub open spec fn evaluates_rhs<S>(
    result: Result<MleEvaluation<S>, MleEvaluationError>,
    ops: ScalarOps<S>,
    rhs: RhsModel,
    row: Seq<S>,
) -> bool {
    let variables = powers::ceil_log2(rhs.dimension());
    if row.len() != variables {
        result == Err::<MleEvaluation<S>, MleEvaluationError>(
            point_error("row", variables, row.len()),
        )
    } else {
        result matches Ok(evaluation) && evaluation.value == evaluation::rhs_value(ops, rhs, row)
            && evaluation.fractional_bits == rhs.fractional_bits() && evaluation.work@
            == evaluation::rhs_work(rhs)
    }
}

/// The product of the complements of the first `count` coordinate pairs.
pub open spec fn zero_prefix_pairs<S>(
    ops: ScalarOps<S>,
    row: Seq<S>,
    column: Seq<S>,
    count: nat,
) -> S
    decreases count,
{
    if count == 0 {
        ops.one
    } else {
        (ops.product)(
            zero_prefix_pairs(ops, row, column, (count - 1) as nat),
            (ops.product)(
                (ops.difference)(ops.one, row[count - 1]),
                (ops.difference)(ops.one, column[count - 1]),
            ),
        )
    }
}

/// The product of the complements of the first `count` coordinates.
pub open spec fn zero_prefix<S>(ops: ScalarOps<S>, row: Seq<S>, count: nat) -> S
    decreases count,
{
    if count == 0 {
        ops.one
    } else {
        (ops.product)(
            zero_prefix(ops, row, (count - 1) as nat),
            (ops.difference)(ops.one, row[count - 1]),
        )
    }
}

/// The value of a matrix's multilinear extension after padding it with zero
/// rows and columns to a larger domain.
pub open spec fn padded_matrix_value<S>(
    ops: ScalarOps<S>,
    matrix: MatrixModel,
    row: Seq<S>,
    column: Seq<S>,
) -> S {
    let extra = (row.len() - powers::ceil_log2(matrix.dimension())) as nat;
    (ops.product)(
        zero_prefix_pairs(ops, row, column, extra),
        evaluation::matrix_value(
            ops,
            matrix,
            row.skip(extra as int),
            column.skip(extra as int),
        ),
    )
}

/// The value of a right-hand side's multilinear extension after padding it
/// with zeros to a larger domain.
pub open spec fn padded_rhs_value<S>(ops: ScalarOps<S>, rhs: RhsModel, row: Seq<S>) -> S {
    let extra = (row.len() - powers::ceil_log2(rhs.dimension())) as nat;
    (ops.product)(
        zero_prefix(ops, row, extra),
        evaluation::rhs_value(ops, rhs, row.skip(extra as int)),
    )
}

/// What a zero-padded matrix evaluation gives.
pub open spec fn evaluates_padded_matrix<S>(
    result: Result<MleEvaluation<S>, MleEvaluationError>,
    ops: ScalarOps<S>,
    matrix: MatrixModel,
    row: Seq<S>,
    column: Seq<S>,
) -> bool {
    let natural = powers::ceil_log2(matrix.dimension());
    if row.len() != column.len() || row.len() < natural {
        result == Err::<MleEvaluation<S>, MleEvaluationError>(
            point_error(
                "zero-padded matrix",
                natural,
                if row.len() < column.len() {
                    row.len()
                } else {
                    column.len()
                },
            ),
        )
    } else {
        let extra = (row.len() - natural) as nat;
        result matches Ok(evaluation) && evaluation.value == padded_matrix_value(
            ops,
            matrix,
            row,
            column,
        ) && evaluation.fractional_bits == matrix.fractional_bits() && evaluation.work@
            == evaluation::matrix_work(matrix).plus(
            mle::operations(0, 2 * extra, 2 * extra + 1),
        )
    }
}

/// What a zero-padded right-hand-side evaluation gives.
pub open spec fn evaluates_padded_rhs<S>(
    result: Result<MleEvaluation<S>, MleEvaluationError>,
    ops: ScalarOps<S>,
    rhs: RhsModel,
    row: Seq<S>,
) -> bool {
    let natural = powers::ceil_log2(rhs.dimension());
    if row.len() < natural {
        result == Err::<MleEvaluation<S>, MleEvaluationError>(
            point_error("zero-padded RHS", natural, row.len()),
        )
    } else {
        let extra = (row.len() - natural) as nat;
        result matches Ok(evaluation) && evaluation.value == padded_rhs_value(ops, rhs, row)
            && evaluation.fractional_bits == rhs.fractional_bits() && evaluation.work@
            == evaluation::rhs_work(rhs).plus(mle::operations(0, extra, extra + 1))
    }
}

/// Borrowed, allocation-free view of a compiled registered generator.
#[derive(Clone, Copy, Debug)]
pub struct PublicEvaluationPlan<'a> {
    problem: &'a GeneratedProblem,
}

impl<'a> PublicEvaluationPlan<'a> {
    /// The problem whose public data is evaluated.
    pub closed spec fn evaluated(&self) -> GeneratedProblem {
        *self.problem
    }
}

impl GeneratedProblem {
    /// Returns the succinct public-evaluation capability for this compiled
    /// problem. Creating the view does not clone periodic tables or allocate.
    pub fn public_evaluation_plan(&self) -> (plan: PublicEvaluationPlan<'_>)
        ensures
            plan.evaluated() == *self,
    {
        PublicEvaluationPlan { problem: self }
    }
}

/// Capability consumed by a succinct backend.
///
/// Backend code should be generic over this interface (or call it on the
/// registry-produced [`PublicEvaluationPlan`]); it must not match matrix or
/// right-hand-side specification variants and reproduce generator formulas
/// itself.
pub trait SuccinctPublicEvaluator {
    /// The public data that is evaluated.
    spec fn public(&self) -> GeneratedModel;

    /// The certificate of the public data.
    spec fn public_certificate(&self) -> generator::GeneratorCertificate;

    fn metadata(&self) -> (metadata: PublicEvaluationMetadata)
        ensures
            metadata_of(self.public(), self.public_certificate(), metadata),
            generated::sound(self.public(), self.public_certificate()),
    ;

    fn evaluate_matrix_mle<I: MleInterpreter>(
        &self,
        interpreter: &I,
        row_point: &[I::Scalar],
        column_point: &[I::Scalar],
    ) -> (result: Result<MleEvaluation<I::Scalar>, MleEvaluationError>)
        ensures
            evaluates_matrix(
                result,
                interpreter.ops(),
                self.public().matrix,
                row_point@,
                column_point@,
            ),
    ;

    fn evaluate_rhs_mle<I: MleInterpreter>(
        &self,
        interpreter: &I,
        row_point: &[I::Scalar],
    ) -> (result: Result<MleEvaluation<I::Scalar>, MleEvaluationError>)
        ensures
            evaluates_rhs(result, interpreter.ops(), self.public().rhs, row_point@),
    ;

    /// Evaluates the same matrix after embedding it in a larger domain padded
    /// at the most significant end. Extra leading index bits must be zero for
    /// active rows and columns; no generator-family knowledge is required.
    fn evaluate_matrix_mle_zero_padded<I: MleInterpreter>(
        &self,
        interpreter: &I,
        row_point: &[I::Scalar],
        column_point: &[I::Scalar],
    ) -> (result: Result<MleEvaluation<I::Scalar>, MleEvaluationError>)
        requires
            row_point@.len() <= mle::WORK_LIMIT,
        ensures
            evaluates_padded_matrix(
                result,
                interpreter.ops(),
                self.public().matrix,
                row_point@,
                column_point@,
            ),
    ;

    /// Right-hand-side counterpart of the zero-padded matrix evaluation.
    fn evaluate_rhs_mle_zero_padded<I: MleInterpreter>(
        &self,
        interpreter: &I,
        row_point: &[I::Scalar],
    ) -> (result: Result<MleEvaluation<I::Scalar>, MleEvaluationError>)
        requires
            row_point@.len() <= mle::WORK_LIMIT,
        ensures
            evaluates_padded_rhs(result, interpreter.ops(), self.public().rhs, row_point@),
    ;
}

fn check_point<S>(point_name: &'static str, point: &[S], expected: usize) -> (result: Result<
    (),
    MleEvaluationError,
>)
    ensures
        point@.len() == expected ==> result is Ok,
        point@.len() != expected ==> result == Err::<(), MleEvaluationError>(
            point_error(point_name, expected as nat, point@.len()),
        ),
{
    if point.len() != expected {
        return Err(
            MleEvaluationError::PointDimension {
                point: point_name,
                expected,
                actual: point.len(),
            },
        );
    }
    Ok(())
}

/// What validating the coordinates of a binary64 challenge point gives.
pub open spec fn point_outcome(
    point_name: &'static str,
    point: Seq<Binary64>,
    expected: nat,
    result: Result<(), MleEvaluationError>,
) -> bool {
    if point.len() != expected {
        result == Err::<(), MleEvaluationError>(point_error(point_name, expected, point.len()))
    } else {
        match result {
            Ok(_) => forall|i: int|
                0 <= i < point.len() ==> binary64::unit_coordinate(#[trigger] point[i]@),
            Err(error) => exists|i: int|
                0 <= i < point.len() && error == (MleEvaluationError::InvalidBinary64Coordinate {
                    point: point_name,
                    index: i as usize,
                }) && !binary64::unit_coordinate(#[trigger] point[i]@) && forall|j: int|
                    0 <= j < i ==> binary64::unit_coordinate(#[trigger] point[j]@),
        }
    }
}

/// Accepts a binary64 challenge point whose every coordinate is canonical: the
/// first one that is not is named.
pub fn validate_f64_point(
    point_name: &'static str,
    point: &[Binary64],
    expected: usize,
) -> (result: Result<(), MleEvaluationError>)
    ensures
        point_outcome(point_name, point@, expected as nat, result),
{
    match check_point(point_name, point, expected) {
        Ok(_) => {},
        Err(error) => {
            return Err(error);
        },
    }
    let mut index: usize = 0;
    while index < point.len()
        invariant
            index <= point@.len(),
            point@.len() == expected,
            forall|j: int|
                0 <= j < index ==> binary64::unit_coordinate(#[trigger] point@[j]@),
        decreases point@.len() - index,
    {
        if !point[index].is_unit_coordinate() {
            assert(!binary64::unit_coordinate(point@[index as int]@));
            return Err(
                MleEvaluationError::InvalidBinary64Coordinate { point: point_name, index },
            );
        }
        index = index + 1;
    }
    Ok(())
}

/// The number of coordinates of a compiled problem's domain.
fn variables_of(problem: &GeneratedProblem) -> (variables: usize)
    ensures
        variables == powers::ceil_log2(problem@.matrix.dimension()),
        variables <= mle::MAX_VARIABLES,
{
    powers::padded_exponent(problem.dimension()) as usize
}

impl<'a> SuccinctPublicEvaluator for PublicEvaluationPlan<'a> {
    open spec fn public(&self) -> GeneratedModel {
        self.evaluated()@
    }

    open spec fn public_certificate(&self) -> generator::GeneratorCertificate {
        self.evaluated().certified()
    }

    fn metadata(&self) -> PublicEvaluationMetadata {
        let certificate = self.problem.certificate();
        let dimension: usize = self.problem.dimension();
        let variables: usize = variables_of(self.problem);
        let padded: usize = powers::power_of_two(variables as u32);
        let matrix_period_terms: usize = self.problem.family().public_matrix_terms(
            certificate,
            padded,
        );
        let rhs_period_terms: usize = if padded < certificate.rhs_period {
            padded
        } else {
            certificate.rhs_period
        };
        PublicEvaluationMetadata {
            evaluator_version: 1,
            domain: MleDomain {
                logical_dimension: dimension,
                padded_dimension: padded,
                variables,
                coordinate_order: BooleanCoordinateOrder::MostSignificantFirst,
            },
            matrix_period_terms,
            rhs_period_terms,
            exact_bounds: ExactArithmeticBounds {
                logical_dimension: certificate.dimension,
                matrix_fractional_bits: certificate.coefficient_fractional_bits,
                rhs_fractional_bits: certificate.rhs_fractional_bits,
                maximum_absolute_row_sum_mantissa:
                    certificate.maximum_absolute_row_sum_mantissa_bound,
                maximum_absolute_rhs_mantissa: certificate.maximum_absolute_rhs_mantissa,
            },
        }
    }

    fn evaluate_matrix_mle<I: MleInterpreter>(
        &self,
        interpreter: &I,
        row_point: &[I::Scalar],
        column_point: &[I::Scalar],
    ) -> (result: Result<MleEvaluation<I::Scalar>, MleEvaluationError>) {
        let variables: usize = variables_of(self.problem);
        if let Err(error) = check_point("row", row_point, variables) {
            return Err(error);
        }
        if let Err(error) = check_point("column", column_point, variables) {
            return Err(error);
        }
        let mut arithmetic = Arithmetic::new(interpreter);
        let value = evaluation::evaluate_family(
            &mut arithmetic,
            self.problem.family(),
            row_point,
            column_point,
        );
        let certificate = self.problem.certificate();
        Ok(
            MleEvaluation {
                value,
                fractional_bits: certificate.coefficient_fractional_bits,
                work: arithmetic.work,
            },
        )
    }

    fn evaluate_rhs_mle<I: MleInterpreter>(
        &self,
        interpreter: &I,
        row_point: &[I::Scalar],
    ) -> (result: Result<MleEvaluation<I::Scalar>, MleEvaluationError>) {
        let variables: usize = variables_of(self.problem);
        let certificate = self.problem.certificate();
        if let Err(error) = check_point("row", row_point, variables) {
            return Err(error);
        }
        let dimension: usize = self.problem.dimension();
        let mut arithmetic = Arithmetic::new(interpreter);
        let value = match self.problem.rhs_periodic_mantissas() {
            Some(table) => evaluation::evaluate_periodic_rhs(
                &mut arithmetic,
                dimension,
                table,
                row_point,
            ),
            None => {
                proof {
                    powers::lemma_padded(dimension as nat);
                }
                let mantissa: i64 = match self.problem.rhs(0) {
                    Some(value) => value.mantissa(),
                    None => 0,
                };
                let active = mle::bounded_index_sum(&mut arithmetic, row_point, dimension);
                let scalar = arithmetic.embed_i64(mantissa);
                let value = arithmetic.times(scalar, active);
                arithmetic.work.periodic_terms = 1;
                value
            },
        };
        Ok(
            MleEvaluation {
                value,
                fractional_bits: certificate.rhs_fractional_bits,
                work: arithmetic.work,
            },
        )
    }

    fn evaluate_matrix_mle_zero_padded<I: MleInterpreter>(
        &self,
        interpreter: &I,
        row_point: &[I::Scalar],
        column_point: &[I::Scalar],
    ) -> (result: Result<MleEvaluation<I::Scalar>, MleEvaluationError>) {
        let natural: usize = variables_of(self.problem);
        if row_point.len() != column_point.len() || row_point.len() < natural {
            let actual: usize = if row_point.len() < column_point.len() {
                row_point.len()
            } else {
                column_point.len()
            };
            return Err(
                MleEvaluationError::PointDimension {
                    point: "zero-padded matrix",
                    expected: natural,
                    actual,
                },
            );
        }
        let extra: usize = row_point.len() - natural;
        let row_tail = vstd::slice::slice_subrange(row_point, extra, row_point.len());
        let column_tail = vstd::slice::slice_subrange(column_point, extra, column_point.len());
        proof {
            assert(row_tail@ =~= row_point@.skip(extra as int));
            assert(column_tail@ =~= column_point@.skip(extra as int));
        }
        let mut evaluation = match self.evaluate_matrix_mle(interpreter, row_tail, column_tail) {
            Ok(evaluation) => evaluation,
            Err(error) => {
                return Err(error);
            },
        };
        let ghost ops = interpreter.ops();
        let mut prefix = interpreter.one();
        let mut index: usize = 0;
        while index < extra
            invariant
                index <= extra <= row_point@.len(),
                row_point@.len() == column_point@.len(),
                ops == interpreter.ops(),
                prefix == zero_prefix_pairs(ops, row_point@, column_point@, index as nat),
            decreases extra - index,
        {
            let row_zero = interpreter.sub(interpreter.one(), row_point[index]);
            let column_zero = interpreter.sub(interpreter.one(), column_point[index]);
            prefix = interpreter.mul(prefix, interpreter.mul(row_zero, column_zero));
            index = index + 1;
        }
        let certificate = self.problem.certificate();
        proof {
            assert(certificate.dimension == self.public().matrix.dimension());
            evaluation::lemma_matrix_work(self.public().matrix);
        }
        evaluation.value = interpreter.mul(prefix, evaluation.value);
        evaluation.work.subtractions = evaluation.work.subtractions + 2 * (extra as u64);
        evaluation.work.multiplications = evaluation.work.multiplications + (2 * (extra as u64)
            + 1);
        Ok(evaluation)
    }

    fn evaluate_rhs_mle_zero_padded<I: MleInterpreter>(
        &self,
        interpreter: &I,
        row_point: &[I::Scalar],
    ) -> (result: Result<MleEvaluation<I::Scalar>, MleEvaluationError>) {
        let natural: usize = variables_of(self.problem);
        let certificate = self.problem.certificate();
        if row_point.len() < natural {
            return Err(
                MleEvaluationError::PointDimension {
                    point: "zero-padded RHS",
                    expected: natural,
                    actual: row_point.len(),
                },
            );
        }
        let extra: usize = row_point.len() - natural;
        let row_tail = vstd::slice::slice_subrange(row_point, extra, row_point.len());
        assert(row_tail@ =~= row_point@.skip(extra as int));
        let mut evaluation = match self.evaluate_rhs_mle(interpreter, row_tail) {
            Ok(evaluation) => evaluation,
            Err(error) => {
                return Err(error);
            },
        };
        let ghost ops = interpreter.ops();
        let mut prefix = interpreter.one();
        let mut index: usize = 0;
        while index < extra
            invariant
                index <= extra <= row_point@.len(),
                ops == interpreter.ops(),
                prefix == zero_prefix(ops, row_point@, index as nat),
            decreases extra - index,
        {
            let zero = interpreter.sub(interpreter.one(), row_point[index]);
            prefix = interpreter.mul(prefix, zero);
            index = index + 1;
        }
        proof {
            evaluation::lemma_rhs_work(self.public().rhs);
        }
        evaluation.value = interpreter.mul(prefix, evaluation.value);
        evaluation.work.subtractions = evaluation.work.subtractions + extra as u64;
        evaluation.work.multiplications = evaluation.work.multiplications + (extra as u64 + 1);
        Ok(evaluation)
    }
}

} // verus!
