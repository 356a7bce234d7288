//! What the results of public evaluation, and the records about it, say of the
//! compiled problem.

use vstd::arithmetic::power2::*;
use vstd::prelude::*;

use crate::evaluator;
use crate::evaluator::{MleEvaluation, MleEvaluationError, PublicEvaluationMetadata};
use crate::generated;
use crate::generator::{GeneratedModel, GeneratorCertificate, RhsModel};
use crate::matrix;
use crate::matrix::MatrixModel;
use crate::matrix_laws;
use crate::mle::ScalarOps;
use crate::powers;
use crate::problem;
use crate::ring_laws;
use crate::ring_scan_laws;
use crate::structure_laws;
use crate::sums;

verus! {

/// A matrix evaluation succeeds where both points have one coordinate for each
/// variable of the padded domain. Its value is then the complete scan over all
/// entries, at the scale of the matrix.
pub proof fn matrix_evaluations_scan_the_matrix<S>(
    result: Result<MleEvaluation<S>, MleEvaluationError>,
    ops: ScalarOps<S>,
    matrix: MatrixModel,
    row: Seq<S>,
    column: Seq<S>,
    variables: nat,
)
    requires
        ring_laws::commutative_ring(ops),
        matrix.wf(),
        pow2(variables) == powers::padded(matrix.dimension()),
        evaluator::evaluates_matrix(result, ops, matrix, row, column),
    ensures
        result is Ok <==> row.len() == variables && column.len() == variables,
        result matches Ok(evaluated) ==> {
            &&& evaluated.value == ring_scan_laws::ring_matrix_scan(ops, matrix, row, column)
            &&& evaluated.fractional_bits == matrix.fractional_bits()
        },
        row.len() != variables ==> result == Err::<MleEvaluation<S>, MleEvaluationError>(
            MleEvaluationError::PointDimension {
                point: "row",
                expected: variables as usize,
                actual: row.len() as usize,
            },
        ),
        row.len() == variables && column.len() != variables ==> result == Err::<MleEvaluation<S>, MleEvaluationError>(
            MleEvaluationError::PointDimension {
                point: "column",
                expected: variables as usize,
                actual: column.len() as usize,
            },
        ),
{
    lemma_variables(matrix.dimension(), variables);
    if row.len() == variables && column.len() == variables {
        ring_scan_laws::ring_matrix_evaluation_is_the_complete_scan(ops, matrix, row, column);
    }
}

/// A right-hand-side evaluation succeeds where the point has one coordinate for
/// each variable of the padded domain. Its value is then the complete scan over
/// all entries, at the scale of the right-hand side.
pub proof fn rhs_evaluations_scan_the_rhs<S>(
    result: Result<MleEvaluation<S>, MleEvaluationError>,
    ops: ScalarOps<S>,
    rhs: RhsModel,
    row: Seq<S>,
    variables: nat,
)
    requires
        ring_laws::commutative_ring(ops),
        rhs.wf(),
        pow2(variables) == powers::padded(rhs.dimension()),
        evaluator::evaluates_rhs(result, ops, rhs, row),
    ensures
        result is Ok <==> row.len() == variables,
        result matches Ok(evaluated) ==> {
            &&& evaluated.value == ring_scan_laws::ring_rhs_scan(ops, rhs, row)
            &&& evaluated.fractional_bits == rhs.fractional_bits()
        },
        row.len() != variables ==> result == Err::<MleEvaluation<S>, MleEvaluationError>(
            MleEvaluationError::PointDimension {
                point: "row",
                expected: variables as usize,
                actual: row.len() as usize,
            },
        ),
{
    lemma_variables(rhs.dimension(), variables);
    if row.len() == variables {
        ring_scan_laws::ring_rhs_evaluation_is_the_complete_scan(ops, rhs, row);
    }
}

/// A zero-padded matrix evaluation succeeds where both points have equally many
/// coordinates, at least one for each variable. Its value is the complete scan
/// over the larger domain, at the scale of the matrix.
pub proof fn padded_matrix_evaluations_scan_the_matrix<S>(
    result: Result<MleEvaluation<S>, MleEvaluationError>,
    ops: ScalarOps<S>,
    matrix: MatrixModel,
    row: Seq<S>,
    column: Seq<S>,
    variables: nat,
)
    requires
        ring_laws::commutative_ring(ops),
        matrix.wf(),
        pow2(variables) == powers::padded(matrix.dimension()),
        evaluator::evaluates_padded_matrix(result, ops, matrix, row, column),
    ensures
        result is Ok <==> row.len() == column.len() && variables <= row.len(),
        result matches Ok(evaluated) ==> {
            &&& evaluated.value == ring_scan_laws::ring_matrix_scan(ops, matrix, row, column)
            &&& evaluated.fractional_bits == matrix.fractional_bits()
        },
        row.len() != column.len() || row.len() < variables ==> result == Err::<
            MleEvaluation<S>,
            MleEvaluationError,
        >(
            MleEvaluationError::PointDimension {
                point: "zero-padded matrix",
                expected: variables as usize,
                actual: if row.len() < column.len() {
                    row.len() as usize
                } else {
                    column.len() as usize
                },
            },
        ),
{
    lemma_variables(matrix.dimension(), variables);
    if row.len() == column.len() && variables <= row.len() {
        ring_scan_laws::ring_matrix_evaluation_is_the_complete_scan(ops, matrix, row, column);
    }
}

/// Right-hand-side counterpart of the zero-padded matrix evaluation.
pub proof fn padded_rhs_evaluations_scan_the_rhs<S>(
    result: Result<MleEvaluation<S>, MleEvaluationError>,
    ops: ScalarOps<S>,
    rhs: RhsModel,
    row: Seq<S>,
    variables: nat,
)
    requires
        ring_laws::commutative_ring(ops),
        rhs.wf(),
        pow2(variables) == powers::padded(rhs.dimension()),
        evaluator::evaluates_padded_rhs(result, ops, rhs, row),
    ensures
        result is Ok <==> variables <= row.len(),
        result matches Ok(evaluated) ==> {
            &&& evaluated.value == ring_scan_laws::ring_rhs_scan(ops, rhs, row)
            &&& evaluated.fractional_bits == rhs.fractional_bits()
        },
        row.len() < variables ==> result == Err::<MleEvaluation<S>, MleEvaluationError>(
            MleEvaluationError::PointDimension {
                point: "zero-padded RHS",
                expected: variables as usize,
                actual: row.len() as usize,
            },
        ),
{
    lemma_variables(rhs.dimension(), variables);
    if variables <= row.len() {
        ring_scan_laws::ring_rhs_evaluation_is_the_complete_scan(ops, rhs, row);
    }
}

proof fn lemma_variables(dimension: nat, variables: nat)
    requires
        2 <= dimension,
        pow2(variables) == powers::padded(dimension),
    ensures
        variables == powers::ceil_log2(dimension),
{
    let exponent = powers::ceil_log2(dimension);
    if variables < exponent {
        lemma_pow2_strictly_increases(variables, exponent);
    }
    if exponent < variables {
        lemma_pow2_strictly_increases(exponent, variables);
    }
}

/// The padded domain is the smallest power of two that holds every index.
pub proof fn padded_domains_are_smallest(dimension: nat, exponent: nat)
    requires
        0 < dimension,
    ensures
        dimension <= powers::padded(dimension),
        powers::padded(dimension) == pow2(powers::ceil_log2(dimension)),
        dimension <= pow2(exponent) ==> powers::padded(dimension) <= pow2(exponent),
{
    powers::lemma_padded(dimension);
    if dimension <= pow2(exponent) {
        powers::lemma_ceil_log2_bound(dimension, exponent);
    }
}

/// What the metadata of an evaluator says: the logical and the padded dimension
/// with its number of variables, the most significant coordinate first, the
/// scales of the matrix and of the right-hand side, and bounds that every row
/// sum and every entry of the right-hand side respects.
pub proof fn metadata_describes_the_problem(
    model: GeneratedModel,
    certificate: GeneratorCertificate,
    metadata: PublicEvaluationMetadata,
    row: int,
)
    requires
        generated::sound(model, certificate),
        evaluator::metadata_of(model, certificate, metadata),
        0 <= row < model.matrix.dimension(),
    ensures
        metadata.evaluator_version == 1,
        metadata.domain.logical_dimension == model.matrix.dimension(),
        metadata.domain.padded_dimension == powers::padded(model.matrix.dimension()),
        pow2(metadata.domain.variables as nat) == metadata.domain.padded_dimension,
        metadata.exact_bounds.logical_dimension == model.matrix.dimension(),
        metadata.exact_bounds.matrix_fractional_bits == model.matrix.fractional_bits(),
        metadata.exact_bounds.rhs_fractional_bits == model.rhs.fractional_bits(),
        matrix_laws::magnitude_sum(model.matrix, row)
            <= metadata.exact_bounds.maximum_absolute_row_sum_mantissa,
        problem::magnitude(model.rhs.mantissa(row))
            <= metadata.exact_bounds.maximum_absolute_rhs_mantissa,
        metadata.rhs_period_terms <= model.rhs.period(),
        metadata.rhs_period_terms <= metadata.domain.padded_dimension,
        metadata.rhs_period_terms == model.rhs.period() || metadata.rhs_period_terms
            == metadata.domain.padded_dimension,
{
    matrix_laws::row_sums_are_bounded(model.matrix, row);
    lemma_rhs_entry(model.rhs, row);
}

/// No entry of a right-hand side exceeds its largest magnitude.
proof fn lemma_rhs_entry(rhs: RhsModel, row: int)
    requires
        rhs.wf(),
        0 <= row,
    ensures
        problem::magnitude(rhs.mantissa(row)) <= rhs.maximum_magnitude(),
{
    if let RhsModel::Periodic { table, .. } = rhs {
        let index = row % table.len() as int;
        assert(0 <= index < table.len()) by (nonlinear_arith)
            requires
                index == row % table.len() as int,
                0 < table.len(),
        ;
        largest_magnitudes_are_attained(table, index);
    }
}

/// The largest magnitude of a table is the magnitude of one of its values, and
/// no value exceeds it; the smallest is that of one of its values, and no value
/// falls below it.
pub proof fn largest_magnitudes_are_attained(table: Seq<i64>, index: int) -> (places: (int, int))
    requires
        0 <= index < table.len(),
    ensures
        problem::magnitude(table[index] as int) <= matrix::max_magnitude(table),
        matrix::min_magnitude(table) <= problem::magnitude(table[index] as int),
        0 <= places.0 < table.len(),
        0 <= places.1 < table.len(),
        problem::magnitude(table[places.0] as int) == matrix::max_magnitude(table),
        problem::magnitude(table[places.1] as int) == matrix::min_magnitude(table),
    decreases table.len(),
{
    let last = table.len() - 1;
    if last == 0 {
        assert(matrix::max_magnitude(table.drop_last()) == 0);
        (0int, 0int)
    } else {
        let head = table.drop_last();
        let inner = if index < last {
            index
        } else {
            0
        };
        let places = largest_magnitudes_are_attained(head, inner);
        assert(head[places.0] == table[places.0]);
        assert(head[places.1] == table[places.1]);
        let size = problem::magnitude(table[last] as int);
        (
            if size > matrix::max_magnitude(head) {
                last
            } else {
                places.0
            },
            if size < matrix::min_magnitude(head) {
                last
            } else {
                places.1
            },
        )
    }
}

/// What the certificate of a compiled problem says of its matrix: the dimension
/// and the scale, how many entries there are in all and at most in one row, a
/// bound on every diagonal entry and on every row sum, the margin, and the
/// structural facts. Symmetric families are certified symmetric, strictly
/// dominant and nonsingular; row-sparse ones are certified none of these.
pub proof fn certificates_describe_the_matrix(
    model: GeneratedModel,
    certificate: GeneratorCertificate,
    row: int,
    column: int,
)
    requires
        generated::sound(model, certificate),
        0 <= row < model.matrix.dimension(),
        0 <= column < model.matrix.dimension(),
    ensures
        certificate.dimension == model.matrix.dimension(),
        certificate.coefficient_fractional_bits == model.matrix.fractional_bits(),
        certificate.structural_nonzeros == sums::sum_below(
            model.matrix.dimension(),
            |i: int| structure_laws::structural_in_row(model.matrix, i),
        ),
        structure_laws::structural_in_row(model.matrix, row)
            <= certificate.maximum_nonzeros_per_row,
        problem::magnitude(model.matrix.coefficient(row, row))
            <= certificate.maximum_diagonal_mantissa_bound,
        matrix_laws::magnitude_sum(model.matrix, row)
            <= certificate.maximum_absolute_row_sum_mantissa_bound,
        certificate.symmetric <==> !(model.matrix is RowSparse),
        certificate.strictly_row_diagonally_dominant == certificate.symmetric,
        certificate.nonsingular_m_matrix == certificate.symmetric,
        certificate.symmetric ==> {
            &&& model.matrix.coefficient(row, column) == model.matrix.coefficient(column, row)
            &&& model.matrix.coefficient(row, row) == matrix_laws::off_diagonal_magnitude_sum(
                model.matrix,
                row,
            ) + certificate.strict_diagonal_dominance_margin_mantissa
            &&& certificate.positive_diagonal
            &&& certificate.nonpositive_off_diagonal
        },
        certificate.positive_diagonal ==> 0 < model.matrix.coefficient(row, row),
        !certificate.symmetric ==> certificate.strict_diagonal_dominance_margin_mantissa == 0,
        certificate.rhs_period == model.rhs.period(),
        certificate.rhs_fractional_bits == model.rhs.fractional_bits(),
        problem::magnitude(model.rhs.mantissa(row)) <= certificate.maximum_absolute_rhs_mantissa,
{
    structure_laws::structural_count_is_exact(model.matrix);
    structure_laws::row_widths_are_bounded(model.matrix, row);
    matrix_laws::diagonal_entries_are_bounded(model.matrix, row);
    matrix_laws::row_sums_are_bounded(model.matrix, row);
    lemma_rhs_entry(model.rhs, row);
    if model.matrix is RowSparse {
        matrix_laws::lemma_pattern(model.matrix, row);
    } else {
        matrix_laws::rows_are_strictly_dominant(model.matrix, row);
        matrix::coefficients_are_symmetric(model.matrix, row, column);
    }
}

} // verus!
