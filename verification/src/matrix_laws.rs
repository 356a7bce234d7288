//! Laws of the compiled matrices: dominance, row sums, structure counts, and
//! nonsingularity.

use vstd::prelude::*;

use crate::generator;
use crate::matrix;
use crate::matrix::{EdgeModel, MatrixModel};
use crate::problem;
use crate::sums;

verus! {

/// The off-diagonal part of a row.
pub open spec fn off_diagonal(matrix: MatrixModel, row: int, column: int) -> int {
    if row == column {
        0
    } else {
        matrix.coefficient(row, column)
    }
}

/// The sum of a row's coefficients.
pub open spec fn row_sum(matrix: MatrixModel, row: int) -> int {
    sums::sum_below(matrix.dimension(), |column: int| matrix.coefficient(row, column))
}

/// The sum of a row's off-diagonal magnitudes.
pub open spec fn off_diagonal_magnitude_sum(matrix: MatrixModel, row: int) -> int {
    sums::sum_below(
        matrix.dimension(),
        |column: int| problem::magnitude(off_diagonal(matrix, row, column)) as int,
    )
}

/// The sum of a row's magnitudes.
pub open spec fn magnitude_sum(matrix: MatrixModel, row: int) -> int {
    sums::sum_below(
        matrix.dimension(),
        |column: int| problem::magnitude(matrix.coefficient(row, column)) as int,
    )
}

/// What one edge diagonal contributes to the magnitude at a row and a column.
pub open spec fn edge_weight(edge: EdgeModel, row: int, column: int) -> int {
    (if column == row - edge.offset {
        problem::magnitude(edge.value(column)) as int
    } else {
        0
    }) + (if column == row + edge.offset {
        problem::magnitude(edge.value(row)) as int
    } else {
        0
    })
}

pub proof fn lemma_off_diagonal_is_weight(matrix: MatrixModel, row: int, column: int)
    requires
        matrix.wf(),
        !(matrix is RowSparse),
        0 <= row < matrix.dimension(),
        0 <= column < matrix.dimension(),
    ensures
        off_diagonal(matrix, row, column) == -sums::sum_below(
            matrix.edges().len(),
            |k: int| edge_weight(matrix.edges()[k], row, column),
        ),
        off_diagonal(matrix, row, column) <= 0,
{
    let edges = matrix.edges();
    let lower = if row < column {
        row
    } else {
        column
    };
    let weight = |k: int| edge_weight(matrix.edges()[k], row, column);
    matrix::lemma_symmetric_coefficient(matrix, row, column);
    if row == column {
        assert forall|k: int| 0 <= k < edges.len() implies #[trigger] weight(k) == 0 by {
            assert(edges[k].offset > 0);
        }
        sums::lemma_sum_zero(edges.len(), weight);
    } else {
        let direct = |k: int|
            if matrix.edges()[k].offset == problem::magnitude(column - row) {
                matrix.edges()[k].value(lower)
            } else {
                0
            };
        sums::lemma_sum_negate(edges.len(), weight);
        let negated = |k: int| -weight(k);
        assert forall|k: int| 0 <= k < edges.len() implies #[trigger] direct(k) == negated(k) by {
            let edge = edges[k];
            assert(edge.table[lower % edge.table.len() as int] < 0);
        }
        sums::lemma_sum_equal(edges.len(), direct, negated);
    }
}

proof fn lemma_edge_weight_sum(matrix: MatrixModel, edge: EdgeModel, row: int)
    requires
        0 <= row < matrix.dimension(),
        0 < edge.offset,
    ensures
        sums::sum_below(matrix.dimension(), |column: int| edge_weight(edge, row, column))
            == edge.incident(matrix.dimension(), row),
{
    let dimension = matrix.dimension();
    let down = |column: int|
        if column == row - edge.offset {
            problem::magnitude(edge.value(row - edge.offset)) as int
        } else {
            0
        };
    let up = |column: int|
        if column == row + edge.offset {
            problem::magnitude(edge.value(row)) as int
        } else {
            0
        };
    sums::lemma_sum_indicator(
        dimension,
        row - edge.offset,
        problem::magnitude(edge.value(row - edge.offset)) as int,
    );
    sums::lemma_sum_indicator(
        dimension,
        row + edge.offset,
        problem::magnitude(edge.value(row)) as int,
    );
    sums::lemma_sum_add(dimension, down, up);
    sums::lemma_sum_equal(
        dimension,
        |column: int| edge_weight(edge, row, column),
        |column: int| down(column) + up(column),
    );
}

proof fn lemma_off_diagonal_sum(matrix: MatrixModel, row: int)
    requires
        matrix.wf(),
        !(matrix is RowSparse),
        0 <= row < matrix.dimension(),
    ensures
        sums::sum_below(
            matrix.dimension(),
            |column: int| off_diagonal(matrix, row, column),
        ) == matrix.margin() - matrix.coefficient(row, row),
{
    let dimension = matrix.dimension();
    let edges = matrix.edges();
    let weight = |column: int, k: int| edge_weight(matrix.edges()[k], row, column);
    let by_column = |column: int| sums::sum_below(edges.len(), |k: int| weight(column, k));
    let by_edge = |k: int| sums::sum_below(dimension, |column: int| weight(column, k));
    let entry = |column: int| off_diagonal(matrix, row, column);
    let negated = |column: int| -by_column(column);
    assert forall|column: int| 0 <= column < dimension implies #[trigger] entry(column) == negated(
        column,
    ) by {
        lemma_off_diagonal_is_weight(matrix, row, column);
        sums::lemma_sum_equal(
            edges.len(),
            |k: int| edge_weight(matrix.edges()[k], row, column),
            |k: int| weight(column, k),
        );
    }
    sums::lemma_sum_equal(dimension, entry, negated);
    sums::lemma_sum_negate(dimension, by_column);
    sums::lemma_sum_swap(dimension, edges.len(), weight);
    let incident = |k: int| matrix.edges()[k].incident(matrix.dimension(), row);
    assert forall|k: int| 0 <= k < edges.len() implies #[trigger] by_edge(k) == incident(k) by {
        assert(edges[k].offset > 0);
        lemma_edge_weight_sum(matrix, edges[k], row);
        sums::lemma_sum_equal(
            dimension,
            |column: int| edge_weight(edges[k], row, column),
            |column: int| weight(column, k),
        );
    }
    sums::lemma_sum_equal(edges.len(), by_edge, incident);
}

proof fn lemma_row_sum_splits(matrix: MatrixModel, row: int)
    requires
        0 <= row < matrix.dimension(),
    ensures
        row_sum(matrix, row) == matrix.coefficient(row, row) + sums::sum_below(
            matrix.dimension(),
            |column: int| off_diagonal(matrix, row, column),
        ),
{
    let dimension = matrix.dimension();
    let diagonal = |column: int|
        if column == row {
            matrix.coefficient(row, row)
        } else {
            0
        };
    let rest = |column: int| off_diagonal(matrix, row, column);
    sums::lemma_sum_indicator(dimension, row, matrix.coefficient(row, row));
    sums::lemma_sum_add(dimension, diagonal, rest);
    sums::lemma_sum_equal(
        dimension,
        |column: int| matrix.coefficient(row, column),
        |column: int| diagonal(column) + rest(column),
    );
}

/// Strict diagonal dominance: in the symmetric families every diagonal entry
/// exceeds its row's absolute off-diagonal sum by exactly the margin, which is
/// positive, and no off-diagonal entry is positive.
pub proof fn rows_are_strictly_dominant(matrix: MatrixModel, row: int)
    requires
        matrix.wf(),
        !(matrix is RowSparse),
        0 <= row < matrix.dimension(),
    ensures
        matrix.coefficient(row, row) == off_diagonal_magnitude_sum(matrix, row) + matrix.margin(),
        0 < matrix.margin() <= matrix.coefficient(row, row),
        forall|column: int|
            0 <= column < matrix.dimension() && column != row ==> #[trigger] matrix.coefficient(
                row,
                column,
            ) <= 0,
{
    let dimension = matrix.dimension();
    let entry = |column: int| off_diagonal(matrix, row, column);
    let size = |column: int| problem::magnitude(off_diagonal(matrix, row, column)) as int;
    lemma_off_diagonal_sum(matrix, row);
    sums::lemma_sum_negate(dimension, entry);
    assert forall|column: int| 0 <= column < dimension implies #[trigger] size(column) == -entry(
        column,
    ) by {
        lemma_off_diagonal_is_weight(matrix, row, column);
    }
    sums::lemma_sum_equal(dimension, size, |column: int| -entry(column));
    matrix::lemma_symmetric_coefficient(matrix, row, row);
    assert forall|column: int| 0 <= column < dimension && column != row implies
        #[trigger] matrix.coefficient(row, column) <= 0 by {
        lemma_off_diagonal_is_weight(matrix, row, column);
    }
}

/// The manufactured right-hand side is the matrix times the vector of ones, at
/// the matrix's own scale.
pub proof fn manufactured_rhs_is_matrix_times_ones(matrix: MatrixModel, seed: Seq<u8>, row: int)
    requires
        matrix.wf(),
        !(matrix is RowSparse),
        0 <= row < matrix.dimension(),
    ensures
        generator::compiled_rhs(problem::RhsSpec::ManufacturedOnesV1, matrix, seed) matches Ok(rhs)
            && rhs.mantissa(row) == row_sum(matrix, row) && rhs.fractional_bits()
            == matrix.fractional_bits() && rhs.dimension() == matrix.dimension(),
{
    lemma_row_sum_splits(matrix, row);
    lemma_off_diagonal_sum(matrix, row);
}

/// No row's absolute sum exceeds the certified row-sum bound.
pub proof fn row_sums_are_bounded(matrix: MatrixModel, row: int)
    requires
        matrix.wf(),
        0 <= row < matrix.dimension(),
    ensures
        magnitude_sum(matrix, row) <= generator::row_sum_bound(matrix),
{
    let dimension = matrix.dimension();
    let diagonal_size = problem::magnitude(matrix.coefficient(row, row)) as int;
    let diagonal = |column: int|
        if column == row {
            diagonal_size
        } else {
            0
        };
    let rest = |column: int| problem::magnitude(off_diagonal(matrix, row, column)) as int;
    sums::lemma_sum_indicator(dimension, row, diagonal_size);
    sums::lemma_sum_add(dimension, diagonal, rest);
    sums::lemma_sum_equal(
        dimension,
        |column: int| problem::magnitude(matrix.coefficient(row, column)) as int,
        |column: int| diagonal(column) + rest(column),
    );
    match matrix {
        MatrixModel::RowSparse { width, offsets, values, diagonal: table, .. } => {
            lemma_pattern(matrix, row);
            let pattern = matrix.pattern(row);
            matrix::lemma_max_magnitude(table, pattern);
            lemma_row_sparse_row(matrix, row);
        },
        _ => {
            rows_are_strictly_dominant(matrix, row);
            matrix::lemma_incident_weight(matrix.edges(), dimension, row, matrix.edges().len());
            sums::lemma_sum_equal(
                matrix.edges().len(),
                |k: int| matrix.edges()[k].incident(dimension, row),
                |k: int| matrix.edges()[k].incident(matrix.dimension(), row),
            );
        },
    }
}

/// No diagonal entry exceeds the certified diagonal bound.
pub proof fn diagonal_entries_are_bounded(matrix: MatrixModel, row: int)
    requires
        matrix.wf(),
        0 <= row < matrix.dimension(),
    ensures
        problem::magnitude(matrix.coefficient(row, row)) <= generator::diagonal_bound(matrix),
{
    match matrix {
        MatrixModel::RowSparse { diagonal, .. } => {
            lemma_pattern(matrix, row);
            matrix::lemma_max_magnitude(diagonal, matrix.pattern(row));
        },
        _ => {
            let dimension = matrix.dimension();
            matrix::lemma_symmetric_coefficient(matrix, row, row);
            matrix::lemma_incident_weight(matrix.edges(), dimension, row, matrix.edges().len());
            sums::lemma_sum_equal(
                matrix.edges().len(),
                |k: int| matrix.edges()[k].incident(dimension, row),
                |k: int| matrix.edges()[k].incident(matrix.dimension(), row),
            );
        },
    }
}

pub proof fn lemma_pattern(matrix: MatrixModel, row: int)
    requires
        matrix.wf(),
        matrix is RowSparse,
        0 <= row,
    ensures
        matrix matches MatrixModel::RowSparse { width, offsets, values, diagonal, .. } && 0
            <= matrix.pattern(row) < diagonal.len() && 0 <= matrix.pattern(row) * width
            && matrix.pattern(row) * width + width <= values.len(),
{
    if let MatrixModel::RowSparse { width, diagonal, .. } = matrix {
        crate::compiled::lemma_pattern_range(
            matrix.pattern(row),
            diagonal.len() as int,
            width as int,
        );
    }
}

proof fn lemma_row_sparse_row(matrix: MatrixModel, row: int)
    requires
        matrix.wf(),
        matrix is RowSparse,
        0 <= row < matrix.dimension(),
    ensures
        matrix matches MatrixModel::RowSparse { width, values, .. } && off_diagonal_magnitude_sum(
            matrix,
            row,
        ) <= matrix::max_magnitude(values) * width,
{
    if let MatrixModel::RowSparse { width, offsets, values, .. } = matrix {
        lemma_pattern(matrix, row);
        let dimension = matrix.dimension();
        let start = matrix.pattern(row) * width;
        let bound = matrix::max_magnitude(values) as int;
        let hit = |column: int, k: int|
            if column == row + offsets[start + k] {
                problem::magnitude(values[start + k] as int) as int
            } else {
                0
            };
        let by_column = |column: int| sums::sum_below(width, |k: int| hit(column, k));
        let by_entry = |k: int| sums::sum_below(dimension, |column: int| hit(column, k));
        let size = |column: int| problem::magnitude(off_diagonal(matrix, row, column)) as int;
        assert forall|column: int| 0 <= column < dimension implies #[trigger] size(column)
            <= by_column(column) by {
            let signed = |k: int|
                if offsets[start + k] == column - row {
                    values[start + k] as int
                } else {
                    0
                };
            lemma_magnitude_of_sum(width, signed);
            sums::lemma_sum_equal(
                width,
                |k: int| problem::magnitude(signed(k)) as int,
                |k: int| hit(column, k),
            );
        }
        sums::lemma_sum_monotonic(dimension, size, by_column);
        sums::lemma_sum_swap(dimension, width, hit);
        assert forall|k: int| 0 <= k < width implies #[trigger] by_entry(k) <= bound by {
            matrix::lemma_max_magnitude(values, start + k);
            let value = problem::magnitude(values[start + k] as int) as int;
            sums::lemma_sum_indicator(dimension, row + offsets[start + k], value);
            sums::lemma_sum_equal(
                dimension,
                |column: int| hit(column, k),
                |column: int|
                    if column == row + offsets[start + k] {
                        value
                    } else {
                        0
                    },
            );
        }
        sums::lemma_sum_at_most(width, by_entry, bound);
        assert(width * bound == bound * width) by (nonlinear_arith);
    }
}

pub proof fn lemma_magnitude_of_sum(count: nat, term: spec_fn(int) -> int)
    ensures
        problem::magnitude(sums::sum_below(count, term)) <= sums::sum_below(
            count,
            |i: int| problem::magnitude(term(i)) as int,
        ),
    decreases count,
{
    if count > 0 {
        lemma_magnitude_of_sum((count - 1) as nat, term);
    }
}

/// The product of a matrix row and an integer vector.
pub open spec fn row_product(matrix: MatrixModel, row: int, vector: Seq<int>) -> int {
    sums::sum_below(
        matrix.dimension(),
        |column: int| matrix.coefficient(row, column) * vector[column],
    )
}

spec fn largest_index(vector: Seq<int>, count: nat) -> int
    decreases count,
{
    if count <= 1 {
        0
    } else {
        let before = largest_index(vector, (count - 1) as nat);
        if problem::magnitude(vector[count - 1]) > problem::magnitude(vector[before]) {
            count - 1
        } else {
            before
        }
    }
}

proof fn lemma_largest_index(vector: Seq<int>, count: nat, index: int)
    requires
        0 <= index < count <= vector.len(),
    ensures
        0 <= largest_index(vector, count) < count,
        problem::magnitude(vector[index]) <= problem::magnitude(
            vector[largest_index(vector, count)],
        ),
    decreases count,
{
    if count > 1 {
        if index < count - 1 {
            lemma_largest_index(vector, (count - 1) as nat, index);
        } else {
            lemma_largest_index(vector, (count - 1) as nat, 0);
        }
    }
}

/// The symmetric families are nonsingular: only the zero vector is mapped to
/// zero.
pub proof fn symmetric_families_are_nonsingular(matrix: MatrixModel, vector: Seq<int>)
    requires
        matrix.wf(),
        !(matrix is RowSparse),
        vector.len() == matrix.dimension(),
        forall|row: int|
            0 <= row < matrix.dimension() ==> #[trigger] row_product(matrix, row, vector) == 0,
    ensures
        forall|index: int| 0 <= index < vector.len() ==> #[trigger] vector[index] == 0,
{
    let dimension = matrix.dimension();
    let row = largest_index(vector, dimension);
    lemma_largest_index(vector, dimension, 0);
    let peak = problem::magnitude(vector[row]) as int;
    let diagonal = matrix.coefficient(row, row);
    rows_are_strictly_dominant(matrix, row);
    // |a_rr x_r| = |sum of the other products| <= (a_rr - margin) |x_r|.
    let product = |column: int| matrix.coefficient(row, column) * vector[column];
    let other = |column: int| off_diagonal(matrix, row, column) * vector[column];
    let own = |column: int|
        if column == row {
            diagonal * vector[row]
        } else {
            0
        };
    sums::lemma_sum_indicator(dimension, row, diagonal * vector[row]);
    sums::lemma_sum_add(dimension, own, other);
    assert forall|column: int| 0 <= column < dimension implies #[trigger] product(column) == own(
        column,
    ) + other(column) by {
        assert(0 * vector[row] == 0) by (nonlinear_arith);
    }
    sums::lemma_sum_equal(dimension, product, |column: int| own(column) + other(column));
    assert(row_product(matrix, row, vector) == 0);
    assert(diagonal * vector[row] == -sums::sum_below(dimension, other));
    lemma_magnitude_of_sum(dimension, other);
    let size = |column: int| problem::magnitude(off_diagonal(matrix, row, column)) as int;
    let bounded = |column: int| peak * size(column);
    assert forall|column: int| 0 <= column < dimension implies #[trigger] problem::magnitude(
        other(column),
    ) <= bounded(column) by {
        lemma_largest_index(vector, dimension, column);
        lemma_magnitude_product(off_diagonal(matrix, row, column), vector[column]);
        assert(size(column) * problem::magnitude(vector[column]) <= peak * size(column))
            by (nonlinear_arith)
            requires
                0 <= problem::magnitude(vector[column]) <= peak,
                0 <= size(column),
        ;
    }
    sums::lemma_sum_monotonic(
        dimension,
        |column: int| problem::magnitude(other(column)) as int,
        bounded,
    );
    sums::lemma_sum_scale(dimension, peak, size);
    lemma_magnitude_product(diagonal, vector[row]);
    let rest = off_diagonal_magnitude_sum(matrix, row);
    let margin = matrix.margin() as int;
    assert(problem::magnitude(diagonal) * peak <= peak * rest);
    assert(peak == 0) by (nonlinear_arith)
        requires
            problem::magnitude(diagonal) * peak <= peak * rest,
            problem::magnitude(diagonal) == rest + margin,
            0 < margin,
            0 <= peak,
    ;
    assert forall|index: int| 0 <= index < vector.len() implies #[trigger] vector[index] == 0 by {
        lemma_largest_index(vector, dimension, index);
    }
}

pub proof fn lemma_magnitude_product(left: int, right: int)
    ensures
        problem::magnitude(left * right) == problem::magnitude(left) * problem::magnitude(right),
{
    if left < 0 {
        if right < 0 {
            assert(left * right == (-left) * (-right) && left * right > 0) by (nonlinear_arith)
                requires
                    left < 0,
                    right < 0,
            ;
        } else {
            assert(left * right == -((-left) * right) && left * right <= 0) by (nonlinear_arith)
                requires
                    left < 0,
                    right >= 0,
            ;
        }
    } else {
        if right < 0 {
            assert(left * right == -(left * (-right)) && left * right <= 0) by (nonlinear_arith)
                requires
                    left >= 0,
                    right < 0,
            ;
        } else {
            assert(left * right >= 0) by (nonlinear_arith)
                requires
                    left >= 0,
                    right >= 0,
            ;
        }
    }
}

/// An edge diagonal stands twice in a symmetric matrix, above and below the
/// diagonal: between a row and the row one offset further on stands the value
/// that the diagonal's table holds for the lower of the two, counted round and
/// round.
pub proof fn edge_values_stand_at_their_offsets(matrix: MatrixModel, edge: int, row: int)
    requires
        matrix.wf(),
        !(matrix is RowSparse),
        0 <= edge < matrix.edges().len(),
        0 <= row,
        row + matrix.edges()[edge].offset < matrix.dimension(),
    ensures
        ({
            let offset = matrix.edges()[edge].offset as int;
            let table = matrix.edges()[edge].table;
            &&& matrix.coefficient(row, row + offset) == table[row % table.len() as int]
            &&& matrix.coefficient(row + offset, row) == table[row % table.len() as int]
            &&& row < table.len() ==> matrix.coefficient(row, row + offset) == table[row]
        }),
{
    let offset = matrix.edges()[edge].offset as int;
    let table = matrix.edges()[edge].table;
    let term = |k: int|
        if matrix.edges()[k].offset == problem::magnitude(row + offset - row) {
            matrix.edges()[k].value(row)
        } else {
            0
        };
    assert forall|k: int| 0 <= k < matrix.edges().len() && k != edge implies #[trigger] term(k)
        == 0 by {
        let first = matrix.edges()[k];
        let second = matrix.edges()[edge];
    }
    sums::lemma_sum_single(matrix.edges().len(), term, edge);
    let stated = |k: int|
        if matrix.edges()[k].offset == problem::magnitude(row + offset - row) {
            matrix.edges()[k].value(
                if row < row + offset {
                    row
                } else {
                    row + offset
                },
            )
        } else {
            0
        };
    sums::lemma_sum_equal(matrix.edges().len(), term, stated);
    matrix::coefficients_are_symmetric(matrix, row, row + offset);
    if row < table.len() {
        assert(row % table.len() as int == row) by (nonlinear_arith)
            requires
                0 <= row < table.len(),
        ;
    }
}

/// The entries of a row of a row-sparse matrix are those of its pattern: the
/// pattern's diagonal value on the diagonal, and each of its values at its
/// displacement from the diagonal.
pub proof fn pattern_values_stand_at_their_displacements(matrix: MatrixModel, row: int, entry: int)
    requires
        matrix.wf(),
        matrix is RowSparse,
        0 <= row < matrix.dimension(),
        0 <= entry < matrix->width,
    ensures
        ({
            let period = matrix->diagonal.len() as int;
            let place = (row % period) * matrix->width + entry;
            &&& 0 <= place < matrix->offsets.len() == matrix->values.len()
            &&& matrix.coefficient(row, row + matrix->offsets[place]) == matrix->values[place]
            &&& matrix.coefficient(row, row) == matrix->diagonal[row % period]
        }),
{
    let width = matrix->width;
    let offsets = matrix->offsets;
    let start = matrix.pattern(row) * width;
    lemma_pattern(matrix, row);
    let column = row + offsets[start + entry];
    let term = |k: int|
        if offsets[start + k] == column - row {
            matrix->values[start + k] as int
        } else {
            0
        };
    assert forall|k: int| 0 <= k < width && k != entry implies #[trigger] term(k) == 0 by {
        let p = matrix.pattern(row);
        if k < entry {
            assert(offsets[p * width + k] < offsets[p * width + entry]);
        } else {
            assert(offsets[p * width + entry] < offsets[p * width + k]);
        }
    }
    sums::lemma_sum_single(width, term, entry);
    assert(offsets[matrix.pattern(row) * width + entry] != 0);
}

/// The diagonal of a row-sparse matrix goes through its pattern values round and
/// round.
pub proof fn diagonal_values_repeat(matrix: MatrixModel, row: int)
    requires
        matrix.wf(),
        matrix is RowSparse,
        0 <= row,
    ensures
        matrix.coefficient(row, row) == matrix->diagonal[row % matrix->diagonal.len() as int],
        row < matrix->diagonal.len() ==> matrix.coefficient(row, row) == matrix->diagonal[row],
{
    lemma_pattern(matrix, row);
    if row < matrix->diagonal.len() {
        assert(row % matrix->diagonal.len() as int == row) by (nonlinear_arith)
            requires
                0 <= row < matrix->diagonal.len(),
        ;
    }
}

/// A seeded right-hand side goes through its table round and round; a
/// manufactured one has a single value.
pub proof fn rhs_entries_are_the_table(rhs: generator::RhsModel, row: int)
    requires
        rhs.wf(),
        0 <= row,
    ensures
        match rhs {
            generator::RhsModel::Constant { value, .. } => rhs.mantissa(row) == value.mantissa,
            generator::RhsModel::Periodic { table, .. } => {
                &&& rhs.mantissa(row) == table[row % table.len() as int]
                &&& row < table.len() ==> rhs.mantissa(row) == table[row]
                &&& rhs.mantissa(row + table.len()) == rhs.mantissa(row)
            },
        },
{
    if let generator::RhsModel::Periodic { table, .. } = rhs {
        let period = table.len() as int;
        assert((row + period) % period == row % period) by (nonlinear_arith)
            requires
                0 < period,
        ;
        if row < period {
            assert(row % period == row) by (nonlinear_arith)
                requires
                    0 <= row < period,
            ;
        }
    }
}

} // verus!
