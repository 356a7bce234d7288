//! What the certified bounds and the counted terms of a compiled problem say of
//! its tables.

use vstd::arithmetic::power2::*;
use vstd::prelude::*;

use crate::evaluation;
use crate::evaluator;
use crate::evaluator::{
    ExactArithmeticBounds, ExactNoWrapDiagnostics, PublicEvaluationMetadata,
};
use crate::evaluator_laws;
use crate::generated;
use crate::generator;
use crate::generator::{GeneratedModel, GeneratorCertificate, RhsModel};
use crate::matrix;
use crate::matrix::{EdgeModel, MatrixModel};
use crate::matrix_laws;
use crate::mle;
use crate::mle::Work;
use crate::powers;
use crate::problem;
use crate::problem::{MatrixRecipe, SymmetricDiaEdge};
use crate::problem_laws;
use crate::statement;
use crate::sums;

verus! {

/// The smaller of two numbers.
pub open spec fn least_of(left: int, right: int) -> int {
    if left <= right {
        left
    } else {
        right
    }
}

proof fn lemma_incident_bound(edges: Seq<EdgeModel>, count: nat)
    ensures
        matrix::incident_weight_bound(edges, count) == sums::sum_below(
            count,
            |k: int| 2 * matrix::max_magnitude(edges[k].table) as int,
        ),
    decreases count,
{
    if count > 0 {
        lemma_incident_bound(edges, (count - 1) as nat);
    }
}

/// Certified bounds are those of the worst row that the tables allow. In a
/// symmetric family every edge diagonal meets a row twice, once with each sign
/// of its offset, and the diagonal entry adds the margin. In generated rows a
/// column meets at most the rows within the band.
pub proof fn certified_bounds_are_the_worst_case(
    model: GeneratedModel,
    certificate: GeneratorCertificate,
)
    requires
        generated::sound(model, certificate),
    ensures
        match model.matrix {
            MatrixModel::Tridiagonal { margin, table, .. } => {
                let largest = matrix::max_magnitude(table);
                &&& certificate.maximum_diagonal_mantissa_bound == 2 * largest + margin
                &&& certificate.maximum_absolute_row_sum_mantissa_bound == 4 * largest + margin
                &&& certificate.strict_diagonal_dominance_margin_mantissa == margin
            },
            MatrixModel::DiaLaplacian { shift, edges, .. } => {
                let incident = sums::sum_below(
                    edges.len(),
                    |k: int| 2 * matrix::max_magnitude(edges[k].table) as int,
                );
                &&& certificate.maximum_diagonal_mantissa_bound == incident + shift
                &&& certificate.maximum_absolute_row_sum_mantissa_bound == 2 * incident + shift
                &&& certificate.strict_diagonal_dominance_margin_mantissa == shift
            },
            MatrixModel::RowSparse { dimension, width, values, diagonal, .. } => {
                let largest = matrix::max_magnitude(values);
                let sources = least_of(
                    dimension - 1,
                    2 * certificate.maximum_half_bandwidth as int,
                );
                &&& certificate.maximum_diagonal_mantissa_bound == matrix::max_magnitude(diagonal)
                &&& certificate.maximum_absolute_row_sum_mantissa_bound == largest * width
                    + matrix::max_magnitude(diagonal)
                &&& certificate.maximum_absolute_column_sum_mantissa_bound == largest * sources
                    + matrix::max_magnitude(diagonal)
            },
        },
        !(model.matrix is RowSparse) ==> certificate.maximum_absolute_column_sum_mantissa_bound
            == certificate.maximum_absolute_row_sum_mantissa_bound,
        match model.rhs {
            RhsModel::Constant { value, .. } => {
                &&& certificate.rhs_period == 1
                &&& certificate.maximum_absolute_rhs_mantissa == problem::magnitude(
                    value.mantissa as int,
                )
            },
            RhsModel::Periodic { table, .. } => {
                &&& certificate.rhs_period == table.len()
                &&& certificate.maximum_absolute_rhs_mantissa == matrix::max_magnitude(table)
            },
        },
{
    lemma_incident_bound(model.matrix.edges(), model.matrix.edges().len());
    if let MatrixModel::Tridiagonal { table, .. } = model.matrix {
        let edges = model.matrix.edges();
        assert(edges.len() == 1 && edges[0].table == table);
        assert(matrix::incident_weight_bound(edges, 0) == 0);
        assert(matrix::incident_weight_bound(edges, 1) == 2 * matrix::max_magnitude(table));
    }
}

proof fn lemma_flat_edges_hold(edges: Seq<EdgeModel>, count: nat, edge: int, index: int) -> (place:
    int)
    requires
        0 <= edge < count <= edges.len(),
        0 <= index < edges[edge].table.len(),
    ensures
        0 <= place < matrix::flat_edges(edges, count).len(),
        matrix::flat_edges(edges, count)[place] == edges[edge].table[index],
    decreases count,
{
    let before = matrix::flat_edges(edges, (count - 1) as nat);
    if edge == count - 1 {
        before.len() as int + index
    } else {
        lemma_flat_edges_hold(edges, (count - 1) as nat, edge, index)
    }
}

/// Every structural entry off the diagonal has a magnitude between the certified
/// least and greatest, and is negative where the certificate says so of all.
pub proof fn off_diagonal_entries_lie_in_the_certified_range(
    model: GeneratedModel,
    certificate: GeneratorCertificate,
    row: int,
    column: int,
)
    requires
        generated::sound(model, certificate),
        0 <= row < model.matrix.dimension(),
        0 <= column < model.matrix.dimension(),
        row != column,
        model.matrix.structural(row, column),
    ensures
        certificate.minimum_off_diagonal_magnitude_mantissa <= problem::magnitude(
            model.matrix.coefficient(row, column),
        ) <= certificate.maximum_off_diagonal_magnitude_mantissa,
        certificate.nonpositive_off_diagonal ==> model.matrix.coefficient(row, column) < 0,
{
    let matrix = model.matrix;
    let values = matrix::off_diagonal_values(matrix);
    let place = if let MatrixModel::RowSparse { width, offsets, diagonal, .. } = matrix {
        matrix_laws::lemma_pattern(matrix, row);
        let entry = choose|k: int|
            0 <= k < width && #[trigger] offsets[matrix.pattern(row) * width + k] == column - row;
        matrix_laws::pattern_values_stand_at_their_displacements(matrix, row, entry);
        matrix.pattern(row) * width + entry
    } else {
        let edge = choose|k: int|
            0 <= k < matrix.edges().len() && (#[trigger] matrix.edges()[k]).offset
                == problem::magnitude(column - row);
        let lower = if row < column {
            row
        } else {
            column
        };
        let table = matrix.edges()[edge].table;
        matrix_laws::edge_values_stand_at_their_offsets(matrix, edge, lower);
        matrix::lemma_symmetric_coefficient(matrix, row, column);
        let index = lower % table.len() as int;
        if let MatrixModel::DiaLaplacian { edges, .. } = matrix {
            lemma_flat_edges_hold(edges, edges.len(), edge, index)
        } else {
            assert(matrix.edges()[0].table == table);
            index
        }
    };
    assert(0 <= place < values.len());
    assert(values[place] == matrix.coefficient(row, column));
    let _ = evaluator_laws::largest_magnitudes_are_attained(values, place);
}

proof fn lemma_active(variables: nat, period: nat, limit: int)
    requires
        matrix::is_period(period),
        0 <= limit <= pow2(variables),
    ensures
        evaluation::split_patterns(variables, period, limit).active() == least_of(
            period as int,
            limit,
        ),
{
    evaluation::lemma_split(variables, period, limit);
    let split = evaluation::split_patterns(variables, period, limit);
    let size = pow2(split.bits) as int;
    let bits = choose|bits: nat|
        bits <= problem::MAX_PERIOD_BITS && period == #[trigger] pow2(bits);
    if bits > 0 {
        lemma_pow2_unfold(bits);
        lemma_pow2_pos((bits - 1) as nat);
    }
    powers::lemma_padded_unique(period, bits);
    assert(size == least_of(period as int, pow2(variables) as int)) by {
        if variables < bits {
            lemma_pow2_strictly_increases(variables, bits);
        } else if bits < variables {
            lemma_pow2_strictly_increases(bits, variables);
        }
    }
    if split.complete == 0 {
        assert(split.complete * size == 0) by (nonlinear_arith)
            requires
                split.complete == 0,
        ;
    } else {
        assert(split.complete * size >= size) by (nonlinear_arith)
            requires
                split.complete >= 1,
                size > 0,
        ;
    }
}

proof fn lemma_tridiagonal_terms(dimension: nat, period: nat, variables: nat, count: nat)
    ensures
        evaluation::tridiagonal_work(dimension, period, variables, count).terms == count,
    decreases count,
{
    if count > 0 {
        lemma_tridiagonal_terms(dimension, period, variables, (count - 1) as nat);
    }
}

proof fn lemma_edge_terms(
    dimension: nat,
    edge: EdgeModel,
    variables: nat,
    start: Work,
    count: nat,
)
    ensures
        evaluation::edge_terms_work(dimension, edge, variables, start, count).terms == start.terms
            + count,
    decreases count,
{
    if count > 0 {
        lemma_edge_terms(dimension, edge, variables, start, (count - 1) as nat);
    }
}

proof fn lemma_laplacian_terms(
    dimension: nat,
    edges: Seq<EdgeModel>,
    variables: nat,
    count: nat,
)
    requires
        count <= edges.len(),
        dimension <= pow2(variables),
        forall|k: int|
            0 <= k < edges.len() ==> (#[trigger] edges[k]).offset < dimension && matrix::is_period(
                edges[k].table.len(),
            ),
    ensures
        evaluation::laplacian_work(dimension, edges, variables, count).terms == sums::sum_below(
            count,
            |k: int| least_of(edges[k].table.len() as int, dimension - edges[k].offset),
        ),
    decreases count,
{
    if count > 0 {
        let edge = edges[count - 1];
        lemma_laplacian_terms(dimension, edges, variables, (count - 1) as nat);
        lemma_active(variables, edge.table.len(), dimension - edge.offset);
        lemma_edge_terms(
            dimension,
            edge,
            variables,
            evaluation::laplacian_work(dimension, edges, variables, (count - 1) as nat),
            evaluation::split_patterns(
                variables,
                edge.table.len(),
                dimension - edge.offset,
            ).active(),
        );
    }
}

proof fn lemma_entry_terms(
    dimension: nat,
    period: nat,
    pattern: int,
    offsets: Seq<i32>,
    first: int,
    variables: nat,
    start: Work,
    count: nat,
)
    ensures
        evaluation::row_entries_work(
            dimension,
            period,
            pattern,
            offsets,
            first,
            variables,
            start,
            count,
        ).terms == start.terms + count,
    decreases count,
{
    if count > 0 {
        lemma_entry_terms(
            dimension,
            period,
            pattern,
            offsets,
            first,
            variables,
            start,
            (count - 1) as nat,
        );
    }
}

proof fn lemma_row_terms(
    dimension: nat,
    width: nat,
    offsets: Seq<i32>,
    period: nat,
    variables: nat,
    count: nat,
)
    ensures
        evaluation::row_sparse_work(dimension, width, offsets, period, variables, count).terms
            == count * (width + 1),
    decreases count,
{
    if count > 0 {
        let pattern = (count - 1) as nat;
        let before = evaluation::row_sparse_work(
            dimension,
            width,
            offsets,
            period,
            variables,
            pattern,
        );
        lemma_row_terms(dimension, width, offsets, period, variables, pattern);
        lemma_entry_terms(
            dimension,
            period,
            pattern as int,
            offsets,
            (pattern * width) as int,
            variables,
            evaluation::entry_term_work(dimension, period, pattern as int, 0, variables, before),
            width,
        );
        assert(pattern * (width + 1) + width + 1 == count * (width + 1)) by (nonlinear_arith)
            requires
                count == pattern + 1,
        ;
    } else {
        assert(0 * (width + 1) == 0);
    }
}

proof fn lemma_rhs_terms(dimension: nat, period: nat, variables: nat, count: nat)
    ensures
        evaluation::rhs_terms_work(dimension, period, variables, count).terms == count,
    decreases count,
{
    if count > 0 {
        lemma_rhs_terms(dimension, period, variables, (count - 1) as nat);
    }
}

/// A matrix evaluation examines each pattern that some entry follows: of an edge
/// diagonal the values that it repeats, but no more than it has places, and of
/// generated rows the diagonal and every displacement of each pattern. That is
/// never more than the stated number of terms, and the same number but for the
/// tridiagonal family.
pub proof fn evaluations_examine_every_pattern(model: GeneratedModel)
    requires
        model.matrix.wf(),
        model.rhs.wf(),
        model.rhs.dimension() == model.matrix.dimension(),
    ensures
        evaluation::matrix_work(model.matrix).terms == (match model.matrix {
            MatrixModel::Tridiagonal { dimension, table, .. } => least_of(
                table.len() as int,
                dimension - 1,
            ),
            MatrixModel::DiaLaplacian { dimension, edges, .. } => sums::sum_below(
                edges.len(),
                |k: int| least_of(edges[k].table.len() as int, dimension - edges[k].offset),
            ),
            MatrixModel::RowSparse { dimension, width, diagonal, .. } => least_of(
                diagonal.len() as int,
                dimension as int,
            ) * (width + 1),
        }),
        evaluation::rhs_work(model.rhs).terms == (match model.rhs {
            RhsModel::Constant { .. } => 1,
            RhsModel::Periodic { dimension, table, .. } => least_of(
                table.len() as int,
                dimension as int,
            ),
        }),
        evaluation::matrix_work(model.matrix).terms <= statement::matrix_terms(model),
        !(model.matrix is Tridiagonal) ==> evaluation::matrix_work(model.matrix).terms
            == statement::matrix_terms(model),
        model.matrix matches MatrixModel::Tridiagonal { dimension, table, .. }
            ==> statement::matrix_terms(model) == least_of(
            table.len() as int,
            powers::padded(dimension) as int,
        ),
        evaluation::rhs_work(model.rhs).terms <= statement::rhs_terms(model),
        statement::rhs_terms(model) == least_of(
            model.rhs.period() as int,
            powers::padded(model.rhs.dimension()) as int,
        ),
{
    let dimension = model.matrix.dimension();
    let variables = powers::ceil_log2(dimension);
    powers::lemma_padded(dimension);
    match model.matrix {
        MatrixModel::Tridiagonal { table, .. } => {
            assert(model.matrix.edges()[0].table == table);
            lemma_active(variables, table.len(), dimension - 1);
            lemma_tridiagonal_terms(
                dimension,
                table.len(),
                variables,
                evaluation::split_patterns(variables, table.len(), dimension - 1).active(),
            );
        },
        MatrixModel::DiaLaplacian { edges, .. } => {
            assert(model.matrix.edges() == edges);
            lemma_laplacian_terms(dimension, edges, variables, edges.len());
            lemma_equal_terms(edges, dimension, edges.len());
        },
        MatrixModel::RowSparse { width, offsets, diagonal, .. } => {
            lemma_active(variables, diagonal.len(), dimension as int);
            lemma_row_terms(
                dimension,
                width,
                offsets,
                diagonal.len(),
                variables,
                evaluation::split_patterns(variables, diagonal.len(), dimension as int).active(),
            );
        },
    }
    if let RhsModel::Periodic { table, .. } = model.rhs {
        lemma_active(variables, table.len(), dimension as int);
        lemma_rhs_terms(
            dimension,
            table.len(),
            variables,
            evaluation::split_patterns(variables, table.len(), dimension as int).active(),
        );
    }
}

proof fn lemma_equal_terms(edges: Seq<EdgeModel>, dimension: nat, count: nat)
    ensures
        sums::sum_below(
            count,
            |k: int| least_of(edges[k].table.len() as int, dimension - edges[k].offset),
        ) == sums::sum_below(
            count,
            |k: int|
                if edges[k].table.len() < dimension - edges[k].offset {
                    edges[k].table.len() as int
                } else {
                    dimension - edges[k].offset
                },
        ),
    decreases count,
{
    if count > 0 {
        lemma_equal_terms(edges, dimension, (count - 1) as nat);
    }
}

/// Public metadata states the terms by which a statement is admitted.
pub proof fn metadata_states_the_admitted_terms(
    model: GeneratedModel,
    certificate: GeneratorCertificate,
    metadata: PublicEvaluationMetadata,
)
    requires
        generated::sound(model, certificate),
        evaluator::metadata_of(model, certificate, metadata),
    ensures
        metadata.matrix_period_terms == statement::matrix_terms(model),
        metadata.rhs_period_terms == statement::rhs_terms(model),
        metadata.exact_bounds.maximum_absolute_row_sum_mantissa
            == certificate.maximum_absolute_row_sum_mantissa_bound,
        metadata.exact_bounds.maximum_absolute_rhs_mantissa
            == certificate.maximum_absolute_rhs_mantissa,
{
}

/// Work is counted by kind: joined counts add up kind by kind, and the
/// arithmetic operations are the three kinds together.
pub proof fn work_is_counted_by_kind(left: Work, right: Work)
    ensures
        ({
            let both = left.plus(right);
            &&& both.terms == left.terms + right.terms
            &&& both.additions == left.additions + right.additions
            &&& both.subtractions == left.subtractions + right.subtractions
            &&& both.multiplications == left.multiplications + right.multiplications
            &&& both.operations() == left.operations() + right.operations()
            &&& left.operations() == left.additions + left.subtractions + left.multiplications
        }),
{
}

/// A basis weight takes one multiplication for each coordinate, and one
/// subtraction for each coordinate where the index has a zero bit.
pub proof fn basis_weights_cost_one_factor_a_coordinate(index: int, bit: int, len: nat)
    requires
        0 <= bit <= 1,
        0 <= index,
    ensures
        mle::basis_work(index, 0).operations() == 0,
        mle::basis_work(2 * index + bit, len + 1).additions == 0,
        mle::basis_work(2 * index + bit, len + 1).multiplications == len + 1,
        mle::basis_work(2 * index + bit, len + 1).subtractions == mle::basis_work(
            index,
            len,
        ).subtractions + (1 - bit),
{
    assert((2 * index + bit) / 2 == index);
    assert((2 * index + bit) % 2 == bit);
}

/// Every coordinate adds the same cost to a bounded sum, whatever the limit, but
/// that the empty and the full range are cheaper.
pub proof fn bounded_sums_cost_the_same_at_every_coordinate(limit: int, len: nat)
    ensures
        limit == 0 || limit == pow2(len) ==> mle::index_sum_work(limit, len).operations() == 0,
        limit != 0 && limit != pow2(len) ==> {
            let work = mle::index_sum_work(limit, len);
            &&& work.additions == 4 * len
            &&& work.subtractions == 2 * len
            &&& work.multiplications == 4 * len
        },
        limit == 0 ==> mle::equal_sum_work(limit, len).operations() == 0,
        limit == pow2(len) ==> {
            let work = mle::equal_sum_work(limit, len);
            &&& work.additions == len
            &&& work.subtractions == 2 * len
            &&& work.multiplications == 3 * len
        },
        limit != 0 && limit != pow2(len) ==> {
            let work = mle::equal_sum_work(limit, len);
            &&& work.additions == 4 * len
            &&& work.subtractions == 4 * len
            &&& work.multiplications == 8 * len
        },
        ({
            let work = mle::shifted_sum_work(len);
            &&& work.additions == 8 * len
            &&& work.subtractions == 8 * len
            &&& work.multiplications == 16 * len
        }),
{
    lemma_pow2_pos(len);
}

proof fn lemma_bit_length(value: nat)
    ensures
        value < pow2(evaluator::bit_length(value)),
        pow2(evaluator::bit_length(value)) <= 2 * value || value == 0,
        value == 0 ==> pow2(evaluator::bit_length(value)) == 1,
{
    powers::lemma_padded(value + 1);
}

/// No-wrap diagnostics are tight. The scales are aligned to the finer of the two;
/// each strict bound of an aligned side exceeds the largest magnitude that the
/// side can have, and by less than a factor of two where that is not zero; a row
/// difference has room for four times the largest of its three parts; the norm
/// has room for a square of every row; and a safe modulus has one bit more than
/// either difference.
pub proof fn diagnostics_are_tight(
    bounds: ExactArithmeticBounds,
    witness_magnitude_bits: u16,
    witness_fractional_bits: u8,
    residual_magnitude_bits: u16,
    diagnostics: ExactNoWrapDiagnostics,
)
    requires
        0 < bounds.logical_dimension,
        bounds.diagnosed(
            witness_magnitude_bits,
            witness_fractional_bits,
            residual_magnitude_bits,
            diagnostics,
        ),
    ensures
        diagnostics.relation_fractional_bits == diagnostics.matrix_term_alignment_shift
            + bounds.matrix_fractional_bits + witness_fractional_bits,
        diagnostics.relation_fractional_bits == diagnostics.rhs_alignment_shift
            + bounds.rhs_fractional_bits,
        diagnostics.matrix_term_alignment_shift == 0 || diagnostics.rhs_alignment_shift == 0,
        ({
            let largest = bounds.maximum_absolute_row_sum_mantissa as nat;
            let scale = pow2(
                (witness_magnitude_bits + diagnostics.matrix_term_alignment_shift) as nat,
            );
            let strict = pow2(diagnostics.matrix_vector_absolute_value_strict_bound_bits as nat);
            &&& largest * scale < strict
            &&& 0 < largest ==> strict <= 2 * (largest * scale)
            &&& largest == 0 ==> strict == scale
        }),
        ({
            let largest = bounds.maximum_absolute_rhs_mantissa as nat;
            let scale = pow2(diagnostics.rhs_alignment_shift as nat);
            let strict = pow2(diagnostics.rhs_absolute_value_strict_bound_bits as nat);
            &&& largest * scale < strict
            &&& 0 < largest ==> strict <= 2 * (largest * scale)
            &&& largest == 0 ==> strict == scale
        }),
        ({
            let row = diagnostics.row_identity_difference_strict_bound_bits;
            &&& diagnostics.matrix_vector_absolute_value_strict_bound_bits + 2 <= row
            &&& diagnostics.rhs_absolute_value_strict_bound_bits + 2 <= row
            &&& residual_magnitude_bits + 2 <= row
            &&& row == diagnostics.matrix_vector_absolute_value_strict_bound_bits + 2 || row
                == diagnostics.rhs_absolute_value_strict_bound_bits + 2 || row
                == residual_magnitude_bits + 2
        }),
        ({
            let squares = bounds.logical_dimension as nat * pow2(
                (2 * residual_magnitude_bits) as nat,
            );
            let strict = pow2(diagnostics.residual_norm_strict_bound_bits as nat);
            squares <= strict < 2 * squares
        }),
        diagnostics.norm_identity_difference_strict_bound_bits
            == diagnostics.residual_norm_strict_bound_bits + 1,
        ({
            let safe = diagnostics.minimum_safe_modulus_bits;
            &&& diagnostics.row_identity_difference_strict_bound_bits < safe
            &&& diagnostics.norm_identity_difference_strict_bound_bits < safe
            &&& safe == diagnostics.row_identity_difference_strict_bound_bits + 1 || safe
                == diagnostics.norm_identity_difference_strict_bound_bits + 1
        }),
{
    let matrix_largest = bounds.maximum_absolute_row_sum_mantissa as nat;
    let rhs_largest = bounds.maximum_absolute_rhs_mantissa as nat;
    lemma_bit_length(matrix_largest);
    lemma_bit_length(rhs_largest);
    lemma_scaled_bound(
        matrix_largest,
        evaluator::bit_length(matrix_largest),
        (witness_magnitude_bits + diagnostics.matrix_term_alignment_shift) as nat,
    );
    lemma_scaled_bound(
        rhs_largest,
        evaluator::bit_length(rhs_largest),
        diagnostics.rhs_alignment_shift as nat,
    );
    let dimension = bounds.logical_dimension as nat;
    let exponent = powers::ceil_log2(dimension);
    let square = (2 * residual_magnitude_bits) as nat;
    powers::lemma_padded(dimension);
    lemma_pow2_adds(exponent, square);
    lemma_pow2_pos(square);
    assert(dimension * pow2(square) <= pow2(exponent) * pow2(square) < 2 * (dimension * pow2(
        square,
    ))) by (nonlinear_arith)
        requires
            dimension <= pow2(exponent) < 2 * dimension,
            0 < pow2(square),
    ;
}

proof fn lemma_scaled_bound(largest: nat, bits: nat, shift: nat)
    requires
        largest < pow2(bits),
        pow2(bits) <= 2 * largest || largest == 0,
        largest == 0 ==> pow2(bits) == 1,
    ensures
        largest * pow2(shift) < pow2(bits + shift),
        0 < largest ==> pow2(bits + shift) <= 2 * (largest * pow2(shift)),
        largest == 0 ==> pow2(bits + shift) == pow2(shift),
{
    lemma_pow2_adds(bits, shift);
    lemma_pow2_pos(shift);
    let scale = pow2(shift);
    let strict = pow2(bits);
    assert(largest * scale < strict * scale) by (nonlinear_arith)
        requires
            largest < strict,
            0 < scale,
    ;
    if 0 < largest {
        assert(strict * scale <= 2 * (largest * scale)) by (nonlinear_arith)
            requires
                strict <= 2 * largest,
                0 < scale,
        ;
    } else {
        assert(strict * scale == scale) by (nonlinear_arith)
            requires
                strict == 1,
        ;
    }
}

/// A recipe is bounded by what its edge diagonals can add to one row: each meets
/// the row twice, at most with its greatest weight.
pub proof fn recipes_are_bounded_by_their_weights(edges: Seq<SymmetricDiaEdge>, count: nat)
    ensures
        problem::incident_bound(edges, count) == sums::sum_below(
            count,
            |k: int| 2 * edges[k].maximum_weight_mantissa as int,
        ),
    decreases count,
{
    if count > 0 {
        recipes_are_bounded_by_their_weights(edges, (count - 1) as nat);
    }
}

/// A row of a tridiagonal matrix has at most three entries, or two where there
/// are only two rows; one of a shifted Laplacian the diagonal and two for each
/// edge diagonal; a generated row the diagonal and one for each displacement.
pub proof fn certified_row_widths_are_those_of_the_family(
    model: GeneratedModel,
    certificate: GeneratorCertificate,
)
    requires
        generated::sound(model, certificate),
    ensures
        certificate.maximum_nonzeros_per_row == match model.matrix {
            MatrixModel::Tridiagonal { dimension, .. } => if dimension == 2 {
                2int
            } else {
                3
            },
            MatrixModel::DiaLaplacian { edges, .. } => 1 + 2 * edges.len() as int,
            MatrixModel::RowSparse { width, .. } => width as int + 1,
        },
{
}

/// The band of a recipe is the distance of its farthest entries: that of the
/// neighbours, of the last edge diagonal, which no other exceeds, or of the
/// stated band.
pub proof fn bands_reach_the_farthest_diagonal(recipe: MatrixRecipe, edge: int)
    requires
        problem::matrix_error(recipe) is None,
    ensures
        match recipe {
            MatrixRecipe::Tridiagonal { .. } => generator::recipe_half_bandwidth(recipe) == 1,
            MatrixRecipe::DiaLaplacian { edges, .. } => {
                &&& generator::recipe_half_bandwidth(recipe) == edges[edges.len()
                    - 1].positive_offset
                &&& 0 <= edge < edges.len() ==> edges[edge].positive_offset
                    <= generator::recipe_half_bandwidth(recipe)
            },
            MatrixRecipe::RowSparse { half_bandwidth, .. } => generator::recipe_half_bandwidth(
                recipe,
            ) == half_bandwidth,
        },
{
    problem_laws::matrix_validity(recipe);
    if let MatrixRecipe::DiaLaplacian { dimension, edges, .. } = recipe {
        if 0 <= edge < edges.len() {
            lemma_offsets_grow(edges, dimension, edge, edges.len() - 1);
        }
    }
}

proof fn lemma_offsets_grow(
    edges: Seq<SymmetricDiaEdge>,
    dimension: u64,
    first: int,
    second: int,
)
    requires
        0 <= first <= second < edges.len(),
        forall|k: int| 0 <= k < edges.len() ==> problem_laws::valid_edge(edges, dimension, k),
    ensures
        edges[first].positive_offset <= edges[second].positive_offset,
    decreases second - first,
{
    if first < second {
        lemma_offsets_grow(edges, dimension, first, second - 1);
        assert(problem_laws::valid_edge(edges, dimension, second));
    }
}

} // verus!
