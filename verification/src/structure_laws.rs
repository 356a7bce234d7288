//! Laws of the sparsity structure: what rows list, how many entries there are,
//! and where they lie.

use vstd::arithmetic::power2::*;
use vstd::prelude::*;

use crate::generator;
use crate::matrix;
use crate::matrix::{MatrixEntry, MatrixModel};
use crate::matrix_laws;
use crate::problem;
use crate::sampling;
use crate::sums;

verus! {

/// One for a structural position, zero elsewhere.
pub open spec fn structural_indicator(matrix: MatrixModel, row: int, column: int) -> int {
    if matrix.structural(row, column) {
        1
    } else {
        0
    }
}

/// The number of structural entries of a row.
pub open spec fn structural_in_row(matrix: MatrixModel, row: int) -> int {
    sums::sum_below(
        matrix.dimension(),
        |column: int| structural_indicator(matrix, row, column),
    )
}

proof fn lemma_listed_prefix(
    matrix: MatrixModel,
    row: int,
    entries: Seq<MatrixEntry>,
    limit: nat,
) -> (count: int)
    requires
        matrix::lists_row(matrix, row, entries),
        limit <= matrix.dimension(),
    ensures
        0 <= count <= entries.len(),
        count == sums::sum_below(
            limit,
            |column: int| structural_indicator(matrix, row, column),
        ),
        forall|p: int| 0 <= p < count ==> (#[trigger] entries[p]).column < limit,
        forall|p: int| count <= p < entries.len() ==> (#[trigger] entries[p]).column >= limit,
    decreases limit,
{
    if limit == 0 {
        return 0;
    }
    let column = limit - 1;
    let before = lemma_listed_prefix(matrix, row, entries, column as nat);
    if matrix.structural(row, column) {
        let at = choose|p: int| 0 <= p < entries.len() && (#[trigger] entries[p]).column == column;
        assert(before < entries.len());
        assert(entries[before].column == column) by {
            if before < at {
                assert(entries[before].column < entries[at].column);
            }
        }
        assert forall|p: int| before + 1 <= p < entries.len() implies (
        #[trigger] entries[p]).column >= limit by {
            assert(entries[before].column < entries[p].column);
        }
        before + 1
    } else {
        assert forall|p: int| before <= p < entries.len() implies (#[trigger] entries[p]).column
            >= limit by {
            assert(matrix.structural(row, entries[p].column as int));
        }
        before
    }
}

/// A row lists as many entries as the sparsity pattern holds in it.
pub proof fn rows_list_every_structural_entry(
    matrix: MatrixModel,
    row: int,
    entries: Seq<MatrixEntry>,
)
    requires
        matrix::lists_row(matrix, row, entries),
    ensures
        entries.len() == structural_in_row(matrix, row),
{
    let count = lemma_listed_prefix(matrix, row, entries, matrix.dimension());
    if count < entries.len() {
        assert(entries[count].column < matrix.dimension());
    }
}

/// Outside the sparsity pattern the coefficient is zero.
pub proof fn unlisted_coefficients_are_zero(matrix: MatrixModel, row: int, column: int)
    requires
        !matrix.structural(row, column),
    ensures
        matrix.coefficient(row, column) == 0,
{
    match matrix {
        MatrixModel::RowSparse { width, offsets, values, .. } => {
            let start = matrix.pattern(row) * width;
            let term = |k: int|
                if offsets[start + k] == column - row {
                    values[start + k] as int
                } else {
                    0
                };
            assert forall|k: int| 0 <= k < width implies #[trigger] term(k) == 0 by {
                assert(offsets[matrix.pattern(row) * width + k] != column - row);
            }
            sums::lemma_sum_zero(width, term);
        },
        _ => {
            let lower = if row < column {
                row
            } else {
                column
            };
            let term = |k: int|
                if matrix.edges()[k].offset == problem::magnitude(column - row) {
                    matrix.edges()[k].value(lower)
                } else {
                    0
                };
            assert forall|k: int| 0 <= k < matrix.edges().len() implies #[trigger] term(k)
                == 0 by {
                assert(matrix.edges()[k].offset != problem::magnitude(column - row));
            }
            sums::lemma_sum_zero(matrix.edges().len(), term);
        },
    }
}

/// The products of the first `count` listed entries with a vector.
pub open spec fn listed_product(
    entries: Seq<MatrixEntry>,
    vector: Seq<int>,
    count: nat,
) -> int {
    sums::sum_below(
        count,
        |p: int| entries[p].value.mantissa * vector[entries[p].column as int],
    )
}

proof fn lemma_listed_product(
    matrix: MatrixModel,
    row: int,
    entries: Seq<MatrixEntry>,
    vector: Seq<int>,
    limit: nat,
) -> (count: int)
    requires
        matrix::lists_row(matrix, row, entries),
        limit <= matrix.dimension(),
    ensures
        0 <= count <= entries.len(),
        forall|p: int| 0 <= p < count ==> (#[trigger] entries[p]).column < limit,
        forall|p: int| count <= p < entries.len() ==> (#[trigger] entries[p]).column >= limit,
        listed_product(entries, vector, count as nat) == sums::sum_below(
            limit,
            |column: int| matrix.coefficient(row, column) * vector[column],
        ),
    decreases limit,
{
    if limit == 0 {
        return 0;
    }
    let column = limit - 1;
    let before = lemma_listed_product(matrix, row, entries, vector, column as nat);
    if matrix.structural(row, column) {
        let at = choose|p: int| 0 <= p < entries.len() && (#[trigger] entries[p]).column == column;
        assert(before < entries.len());
        assert(entries[before].column == column) by {
            if before < at {
                assert(entries[before].column < entries[at].column);
            }
        }
        assert forall|p: int| before + 1 <= p < entries.len() implies (
        #[trigger] entries[p]).column >= limit by {
            assert(entries[before].column < entries[p].column);
        }
        before + 1
    } else {
        unlisted_coefficients_are_zero(matrix, row, column);
        assert(0 * vector[column] == 0) by (nonlinear_arith);
        assert forall|p: int| before <= p < entries.len() implies (#[trigger] entries[p]).column
            >= limit by {
            assert(matrix.structural(row, entries[p].column as int));
        }
        before
    }
}

/// Adding up the listed entries of a row, each times its vector entry, gives
/// the product of the whole row and the vector.
pub proof fn listed_products_give_the_row_product(
    matrix: MatrixModel,
    row: int,
    entries: Seq<MatrixEntry>,
    vector: Seq<int>,
)
    requires
        matrix::lists_row(matrix, row, entries),
    ensures
        listed_product(entries, vector, entries.len()) == matrix_laws::row_product(
            matrix,
            row,
            vector,
        ),
{
    let count = lemma_listed_product(matrix, row, entries, vector, matrix.dimension());
    if count < entries.len() {
        assert(entries[count].column < matrix.dimension());
    }
}

/// Two listings of a row are the same sequence.
pub proof fn row_listing_is_unique(
    matrix: MatrixModel,
    row: int,
    left: Seq<MatrixEntry>,
    right: Seq<MatrixEntry>,
)
    requires
        matrix::lists_row(matrix, row, left),
        matrix::lists_row(matrix, row, right),
    ensures
        left == right,
{
    rows_list_every_structural_entry(matrix, row, left);
    rows_list_every_structural_entry(matrix, row, right);
    assert forall|p: int| 0 <= p < left.len() implies left[p] == right[p] by {
        let column = left[p].column as nat;
        let in_left = lemma_listed_prefix(matrix, row, left, column);
        let in_right = lemma_listed_prefix(matrix, row, right, column);
        assert(in_left == p) by {
            if in_left < p {
                assert(left[in_left].column < left[p].column);
            }
        }
        assert(matrix.structural(row, column as int));
        let at = choose|q: int| 0 <= q < right.len() && (#[trigger] right[q]).column == column;
        assert(at == in_right) by {
            if in_right < at {
                assert(right[in_right].column < right[at].column);
            }
        }
    }
    assert(left =~= right);
}

spec fn edge_hits(offset: int, row: int, column: int) -> int {
    (if column == row - offset {
        1int
    } else {
        0
    }) + (if column == row + offset {
        1int
    } else {
        0
    })
}

proof fn lemma_symmetric_indicator(matrix: MatrixModel, row: int, column: int)
    requires
        matrix.wf(),
        !(matrix is RowSparse),
    ensures
        structural_indicator(matrix, row, column) == (if column == row {
            1int
        } else {
            0
        }) + sums::sum_below(
            matrix.edges().len(),
            |k: int| edge_hits(matrix.edges()[k].offset as int, row, column),
        ),
{
    let edges = matrix.edges();
    let hits = |k: int| edge_hits(matrix.edges()[k].offset as int, row, column);
    if row != column && matrix.structural(row, column) {
        let k = choose|k: int|
            0 <= k < matrix.edges().len() && (#[trigger] matrix.edges()[k]).offset
                == problem::magnitude(column - row);
        assert(edges[k].offset > 0);
        assert forall|l: int| 0 <= l < edges.len() && l != k implies #[trigger] hits(l) == 0 by {
            if l < k {
                assert(edges[l].offset < edges[k].offset);
            } else {
                assert(edges[k].offset < edges[l].offset);
            }
        }
        sums::lemma_sum_single(edges.len(), hits, k);
    } else {
        assert forall|l: int| 0 <= l < edges.len() implies #[trigger] hits(l) == 0 by {
            assert(edges[l].offset > 0);
            if row != column {
                assert(edges[l].offset != problem::magnitude(column - row));
            }
        }
        sums::lemma_sum_zero(edges.len(), hits);
    }
}

spec fn edge_row_hits(dimension: int, offset: int, row: int) -> int {
    (if offset <= row < dimension {
        1int
    } else {
        0
    }) + (if 0 <= row < dimension - offset {
        1int
    } else {
        0
    })
}

proof fn lemma_symmetric_row_count(matrix: MatrixModel, row: int)
    requires
        matrix.wf(),
        !(matrix is RowSparse),
        0 <= row < matrix.dimension(),
    ensures
        structural_in_row(matrix, row) == 1 + sums::sum_below(
            matrix.edges().len(),
            |k: int|
                edge_row_hits(matrix.dimension() as int, matrix.edges()[k].offset as int, row),
        ),
{
    let dimension = matrix.dimension();
    let edges = matrix.edges();
    let hit = |column: int, k: int| edge_hits(matrix.edges()[k].offset as int, row, column);
    let by_column = |column: int| sums::sum_below(edges.len(), |k: int| hit(column, k));
    let by_edge = |k: int| sums::sum_below(dimension, |column: int| hit(column, k));
    let own = |column: int|
        if column == row {
            1int
        } else {
            0
        };
    let indicator = |column: int| structural_indicator(matrix, row, column);
    assert forall|column: int| 0 <= column < dimension implies #[trigger] indicator(column) == own(
        column,
    ) + by_column(column) by {
        lemma_symmetric_indicator(matrix, row, column);
        sums::lemma_sum_equal(
            edges.len(),
            |k: int| edge_hits(matrix.edges()[k].offset as int, row, column),
            |k: int| hit(column, k),
        );
    }
    sums::lemma_sum_equal(dimension, indicator, |column: int| own(column) + by_column(column));
    sums::lemma_sum_add(dimension, own, by_column);
    sums::lemma_sum_indicator(dimension, row, 1);
    sums::lemma_sum_swap(dimension, edges.len(), hit);
    let row_hits = |k: int|
        edge_row_hits(matrix.dimension() as int, matrix.edges()[k].offset as int, row);
    assert forall|k: int| 0 <= k < edges.len() implies #[trigger] by_edge(k) == row_hits(k) by {
        let offset = edges[k].offset as int;
        assert(edges[k].offset > 0);
        let down = |column: int|
            if column == row - offset {
                1int
            } else {
                0
            };
        let up = |column: int|
            if column == row + offset {
                1int
            } else {
                0
            };
        sums::lemma_sum_indicator(dimension, row - offset, 1);
        sums::lemma_sum_indicator(dimension, row + offset, 1);
        sums::lemma_sum_add(dimension, down, up);
        sums::lemma_sum_equal(
            dimension,
            |column: int| hit(column, k),
            |column: int| down(column) + up(column),
        );
    }
    sums::lemma_sum_equal(edges.len(), by_edge, row_hits);
}

proof fn lemma_symmetric_total(matrix: MatrixModel)
    requires
        matrix.wf(),
        !(matrix is RowSparse),
    ensures
        sums::sum_below(matrix.dimension(), |row: int| structural_in_row(matrix, row))
            == generator::structural_count(matrix),
{
    let dimension = matrix.dimension();
    let edges = matrix.edges();
    let hit = |row: int, k: int|
        edge_row_hits(matrix.dimension() as int, matrix.edges()[k].offset as int, row);
    let by_row = |row: int| sums::sum_below(edges.len(), |k: int| hit(row, k));
    let by_edge = |k: int| sums::sum_below(dimension, |row: int| hit(row, k));
    let count = |row: int| structural_in_row(matrix, row);
    let one = |row: int| 1int;
    assert forall|row: int| 0 <= row < dimension implies #[trigger] count(row) == one(row)
        + by_row(row) by {
        lemma_symmetric_row_count(matrix, row);
        sums::lemma_sum_equal(
            edges.len(),
            |k: int|
                edge_row_hits(matrix.dimension() as int, matrix.edges()[k].offset as int, row),
            |k: int| hit(row, k),
        );
    }
    sums::lemma_sum_equal(dimension, count, |row: int| one(row) + by_row(row));
    sums::lemma_sum_add(dimension, one, by_row);
    sums::lemma_sum_constant(dimension, 1);
    sums::lemma_sum_equal(dimension, one, |row: int| 1int);
    sums::lemma_sum_swap(dimension, edges.len(), hit);
    let direct = |k: int| 2 * (dimension as int - matrix.edges()[k].offset);
    assert forall|k: int| 0 <= k < edges.len() implies #[trigger] by_edge(k) == direct(k) by {
        let offset = edges[k].offset as int;
        assert(0 < edges[k].offset < dimension);
        let low = |row: int|
            if offset <= row < dimension {
                1int
            } else {
                0
            };
        let high = |row: int|
            if 0 <= row < dimension - offset {
                1int
            } else {
                0
            };
        sums::lemma_sum_range(dimension, offset, dimension as int);
        sums::lemma_sum_range(dimension, 0, dimension - offset);
        sums::lemma_sum_equal(
            dimension,
            low,
            |i: int|
                if offset <= i < dimension as int {
                    1
                } else {
                    0
                },
        );
        sums::lemma_sum_add(dimension, low, high);
        sums::lemma_sum_equal(
            dimension,
            |row: int| hit(row, k),
            |row: int| low(row) + high(row),
        );
    }
    sums::lemma_sum_equal(edges.len(), by_edge, direct);
    sums::lemma_sum_equal(
        edges.len(),
        direct,
        |k: int| 2 * (matrix.dimension() as int - matrix.edges()[k].offset),
    );
}

proof fn lemma_residue_step(index: int, period: int, pattern: int)
    requires
        0 <= pattern < period,
        0 <= index,
    ensures
        generator::periodic_count(index + 1, period, pattern) == generator::periodic_count(
            index,
            period,
            pattern,
        ) + if index % period == pattern {
            1int
        } else {
            0
        },
{
    let distance = index - pattern;
    if distance < 0 {
        assert(index % period == index) by (nonlinear_arith)
            requires
                0 <= index < period,
        ;
    } else {
        let quotient = distance / period;
        let remainder = distance % period;
        assert(distance == quotient * period + remainder && 0 <= remainder < period)
            by (nonlinear_arith)
            requires
                quotient == distance / period,
                remainder == distance % period,
                0 < period,
        ;
        assert((index % period == pattern) == (remainder == 0)) by (nonlinear_arith)
            requires
                index == quotient * period + remainder + pattern,
                0 <= remainder < period,
                0 <= pattern < period,
        ;
        if distance > 0 {
            assert((distance - 1) / period == quotient - if remainder == 0 {
                1int
            } else {
                0
            }) by (nonlinear_arith)
                requires
                    distance == quotient * period + remainder,
                    0 <= remainder < period,
                    0 < distance,
            ;
        } else {
            assert(0int / period == 0 && 0int % period == 0) by (nonlinear_arith)
                requires
                    0 < period,
            ;
        }
    }
}

/// One for an index of `low..high` that leaves the remainder `pattern`.
spec fn residue_hit(index: int, period: int, pattern: int, low: int, high: int) -> int {
    if index % period == pattern && low <= index < high {
        1
    } else {
        0
    }
}

proof fn lemma_residues_in_range(count: nat, period: int, pattern: int, low: int, high: int)
    requires
        0 <= pattern < period,
        0 <= low <= high,
    ensures
        sums::sum_below(count, |i: int| residue_hit(i, period, pattern, low, high))
            == generator::periodic_count(
            if high < count {
                high
            } else {
                count as int
            },
            period,
            pattern,
        ) - generator::periodic_count(
            if low < count {
                low
            } else {
                count as int
            },
            period,
            pattern,
        ),
    decreases count,
{
    if count > 0 {
        lemma_residues_in_range((count - 1) as nat, period, pattern, low, high);
        lemma_residue_step(count - 1, period, pattern);
    }
}

/// The closed count of a pattern's rows at a displacement is the number of rows
/// of the pattern whose displaced column lies inside the matrix.
pub proof fn displaced_counts_count_rows(dimension: nat, period: int, pattern: int, offset: int)
    requires
        0 <= pattern < period,
        problem::magnitude(offset) <= dimension,
    ensures
        generator::displaced_count(dimension as int, period, pattern, offset) == sums::sum_below(
            dimension,
            |row: int|
                if row % period == pattern && 0 <= row + offset < dimension {
                    1
                } else {
                    0
                },
        ),
{
    let (low, high) = if offset < 0 {
        (-offset, dimension as int)
    } else {
        (0int, dimension - offset)
    };
    lemma_residues_in_range(dimension, period, pattern, low, high);
    sums::lemma_sum_equal(
        dimension,
        |row: int| residue_hit(row, period, pattern, low, high),
        |row: int|
            if row % period == pattern && 0 <= row + offset < dimension {
                1
            } else {
                0
            },
    );
}

proof fn lemma_pattern_hits(matrix: MatrixModel, pattern: int, k: int)
    requires
        matrix.wf(),
        matrix is RowSparse,
        matrix matches MatrixModel::RowSparse { diagonal, width, .. } && 0 <= pattern
            < diagonal.len() && 0 <= k < width,
    ensures
        matrix matches MatrixModel::RowSparse { diagonal, width, offsets, .. } && sums::sum_below(
            matrix.dimension(),
            |row: int| pattern_hit(matrix, row, pattern, k),
        ) == generator::displaced_count(
            matrix.dimension() as int,
            diagonal.len() as int,
            pattern,
            offsets[pattern * width + k] as int,
        ),
{
    if let MatrixModel::RowSparse { diagonal, width, offsets, .. } = matrix {
        let dimension = matrix.dimension();
        let period = diagonal.len() as int;
        let offset = offsets[pattern * width + k] as int;
        assert(offset != 0 && problem::magnitude(offset) < dimension);
        let (low, high) = if offset < 0 {
            (-offset, dimension as int)
        } else {
            (0int, dimension - offset)
        };
        lemma_residues_in_range(dimension, period, pattern, low, high);
        sums::lemma_sum_equal(
            dimension,
            |row: int| pattern_hit(matrix, row, pattern, k),
            |row: int| residue_hit(row, period, pattern, low, high),
        );
    }
}

/// One for a row of a pattern whose displaced column lies inside the matrix.
spec fn pattern_hit(matrix: MatrixModel, row: int, pattern: int, k: int) -> int {
    match matrix {
        MatrixModel::RowSparse { width, offsets, .. } => if matrix.pattern(row) == pattern && 0
            <= row + offsets[pattern * width + k] < matrix.dimension() {
            1
        } else {
            0
        },
        _ => 0,
    }
}

proof fn lemma_row_sparse_row_count(matrix: MatrixModel, row: int)
    requires
        matrix.wf(),
        matrix is RowSparse,
        0 <= row < matrix.dimension(),
    ensures
        matrix matches MatrixModel::RowSparse { width, diagonal, .. } && structural_in_row(
            matrix,
            row,
        ) == 1 + sums::sum_below(
            diagonal.len(),
            |p: int| sums::sum_below(width, |k: int| pattern_hit(matrix, row, p, k)),
        ),
{
    if let MatrixModel::RowSparse { width, offsets, diagonal, .. } = matrix {
        let dimension = matrix.dimension();
        let pattern = matrix.pattern(row);
        assert(0 <= pattern < diagonal.len());
        let start = pattern * width;
        let hit = |column: int, k: int|
            if column == row + offsets[start + k] {
                1int
            } else {
                0
            };
        let by_column = |column: int| sums::sum_below(width, |k: int| hit(column, k));
        let by_entry = |k: int| sums::sum_below(dimension, |column: int| hit(column, k));
        let own = |column: int|
            if column == row {
                1int
            } else {
                0
            };
        let indicator = |column: int| structural_indicator(matrix, row, column);
        assert forall|column: int| 0 <= column < dimension implies #[trigger] indicator(column)
            == own(column) + by_column(column) by {
            let hits = |k: int| hit(column, k);
            if column != row && matrix.structural(row, column) {
                let k = choose|k: int|
                    0 <= k < width && #[trigger] offsets[matrix.pattern(row) * width + k]
                        == column - row;
                assert forall|l: int| 0 <= l < width && l != k implies #[trigger] hits(l) == 0 by {
                    if l < k {
                        assert(offsets[pattern * width + l] < offsets[pattern * width + k]);
                    } else {
                        assert(offsets[pattern * width + k] < offsets[pattern * width + l]);
                    }
                }
                sums::lemma_sum_single(width, hits, k);
            } else {
                assert forall|l: int| 0 <= l < width implies #[trigger] hits(l) == 0 by {
                    assert(offsets[pattern * width + l] != 0);
                    if column != row {
                        assert(offsets[matrix.pattern(row) * width + l] != column - row);
                    }
                }
                sums::lemma_sum_zero(width, hits);
            }
        }
        sums::lemma_sum_equal(
            dimension,
            indicator,
            |column: int| own(column) + by_column(column),
        );
        sums::lemma_sum_add(dimension, own, by_column);
        sums::lemma_sum_indicator(dimension, row, 1);
        sums::lemma_sum_swap(dimension, width, hit);
        let own_hits = |k: int| pattern_hit(matrix, row, pattern, k);
        assert forall|k: int| 0 <= k < width implies #[trigger] by_entry(k) == own_hits(k) by {
            sums::lemma_sum_indicator(dimension, row + offsets[start + k], 1);
            sums::lemma_sum_equal(
                dimension,
                |column: int| hit(column, k),
                |column: int|
                    if column == row + offsets[start + k] {
                        1
                    } else {
                        0
                    },
            );
        }
        sums::lemma_sum_equal(width, by_entry, own_hits);
        let by_pattern = |p: int| sums::sum_below(width, |k: int| pattern_hit(matrix, row, p, k));
        assert forall|p: int| 0 <= p < diagonal.len() && p != pattern implies #[trigger] by_pattern(
            p,
        ) == 0 by {
            sums::lemma_sum_zero(width, |k: int| pattern_hit(matrix, row, p, k));
        }
        sums::lemma_sum_single(diagonal.len(), by_pattern, pattern);
        sums::lemma_sum_equal(
            width,
            own_hits,
            |k: int| pattern_hit(matrix, row, pattern, k),
        );
    }
}

/// No row holds more structural entries than the certified row width.
pub proof fn row_widths_are_bounded(matrix: MatrixModel, row: int)
    requires
        matrix.wf(),
        0 <= row < matrix.dimension(),
    ensures
        structural_in_row(matrix, row) <= generator::row_width_bound(matrix),
{
    match matrix {
        MatrixModel::RowSparse { width, diagonal, .. } => {
            lemma_row_sparse_row_count(matrix, row);
            let pattern = matrix.pattern(row);
            assert(0 <= pattern < diagonal.len());
            let hits = |p: int| sums::sum_below(width, |k: int| pattern_hit(matrix, row, p, k));
            assert forall|p: int| 0 <= p < diagonal.len() && p != pattern implies #[trigger] hits(p)
                == 0 by {
                sums::lemma_sum_zero(width, |k: int| pattern_hit(matrix, row, p, k));
            }
            sums::lemma_sum_single(diagonal.len(), hits, pattern);
            sums::lemma_sum_at_most(width, |k: int| pattern_hit(matrix, row, pattern, k), 1);
        },
        _ => {
            let edges = matrix.edges();
            let dimension = matrix.dimension() as int;
            let hits = |k: int|
                edge_row_hits(matrix.dimension() as int, matrix.edges()[k].offset as int, row);
            lemma_symmetric_row_count(matrix, row);
            let most = if matrix is Tridiagonal && dimension == 2 {
                1int
            } else {
                2
            };
            assert forall|k: int| 0 <= k < edges.len() implies #[trigger] hits(k) <= most by {}
            sums::lemma_sum_at_most(edges.len(), hits, most);
        },
    }
}

proof fn lemma_row_sparse_total(matrix: MatrixModel)
    requires
        matrix.wf(),
        matrix is RowSparse,
    ensures
        sums::sum_below(matrix.dimension(), |row: int| structural_in_row(matrix, row))
            == generator::structural_count(matrix),
{
    if let MatrixModel::RowSparse { width, offsets, diagonal, .. } = matrix {
        let dimension = matrix.dimension();
        let period = diagonal.len();
        let in_pattern = |row: int, p: int|
            sums::sum_below(width, |k: int| pattern_hit(matrix, row, p, k));
        let by_row = |row: int| sums::sum_below(period, |p: int| in_pattern(row, p));
        let by_pattern = |p: int| sums::sum_below(dimension, |row: int| in_pattern(row, p));
        let count = |row: int| structural_in_row(matrix, row);
        let one = |row: int| 1int;
        assert forall|row: int| 0 <= row < dimension implies #[trigger] count(row) == one(row)
            + by_row(row) by {
            lemma_row_sparse_row_count(matrix, row);
            sums::lemma_sum_equal(
                period,
                |p: int| sums::sum_below(width, |k: int| pattern_hit(matrix, row, p, k)),
                |p: int| in_pattern(row, p),
            );
        }
        sums::lemma_sum_equal(dimension, count, |row: int| one(row) + by_row(row));
        sums::lemma_sum_add(dimension, one, by_row);
        sums::lemma_sum_constant(dimension, 1);
        sums::lemma_sum_equal(dimension, one, |row: int| 1int);
        sums::lemma_sum_swap(dimension, period, in_pattern);
        let direct = |p: int|
            sums::sum_below(
                width,
                |k: int|
                    generator::displaced_count(
                        dimension as int,
                        diagonal.len() as int,
                        p,
                        offsets[p * width + k] as int,
                    ),
            );
        assert forall|p: int| 0 <= p < period implies #[trigger] by_pattern(p) == direct(p) by {
            let hit = |row: int, k: int| pattern_hit(matrix, row, p, k);
            sums::lemma_sum_swap(dimension, width, hit);
            let left = |row: int| in_pattern(row, p);
            let right = |row: int| sums::sum_below(width, |k: int| hit(row, k));
            assert forall|row: int| 0 <= row < dimension implies #[trigger] left(row) == right(
                row,
            ) by {
                sums::lemma_sum_equal(
                    width,
                    |k: int| pattern_hit(matrix, row, p, k),
                    |k: int| hit(row, k),
                );
            }
            sums::lemma_sum_equal(dimension, left, right);
            let by_entry = |k: int| sums::sum_below(dimension, |row: int| hit(row, k));
            let displaced = |k: int|
                generator::displaced_count(
                    dimension as int,
                    diagonal.len() as int,
                    p,
                    offsets[p * width + k] as int,
                );
            assert forall|k: int| 0 <= k < width implies #[trigger] by_entry(k) == displaced(k) by {
                lemma_pattern_hits(matrix, p, k);
                sums::lemma_sum_equal(
                    dimension,
                    |row: int| pattern_hit(matrix, row, p, k),
                    |row: int| hit(row, k),
                );
            }
            sums::lemma_sum_equal(width, by_entry, displaced);
        }
        sums::lemma_sum_equal(period, by_pattern, direct);
        if dimension < period {
            // Patterns beyond the last row are never used.
            let unused = (period - dimension) as nat;
            sums::lemma_sum_split(dimension, unused, direct);
            let rest = |i: int| direct(dimension + i);
            assert forall|i: int| 0 <= i < unused implies #[trigger] rest(i) == 0 by {
                let p = dimension + i;
                let terms = |k: int|
                    generator::displaced_count(
                        dimension as int,
                        diagonal.len() as int,
                        p,
                        offsets[p * width + k] as int,
                    );
                assert forall|k: int| 0 <= k < width implies #[trigger] terms(k) == 0 by {
                    let offset = offsets[p * width + k];
                    assert(problem::magnitude(offset as int) < dimension);
                }
                sums::lemma_sum_zero(width, terms);
            }
            sums::lemma_sum_zero(unused, rest);
        }
        let active = if diagonal.len() < dimension {
            diagonal.len()
        } else {
            dimension
        };
        let stated = |p: int|
            sums::sum_below(
                width,
                |k: int|
                    generator::displaced_count(
                        matrix.dimension() as int,
                        diagonal.len() as int,
                        p,
                        offsets[p * width + k] as int,
                    ),
            );
        assert forall|p: int| 0 <= p < active implies #[trigger] direct(p) == stated(p) by {
            sums::lemma_sum_equal(
                width,
                |k: int|
                    generator::displaced_count(
                        dimension as int,
                        diagonal.len() as int,
                        p,
                        offsets[p * width + k] as int,
                    ),
                |k: int|
                    generator::displaced_count(
                        matrix.dimension() as int,
                        diagonal.len() as int,
                        p,
                        offsets[p * width + k] as int,
                    ),
            );
        }
        sums::lemma_sum_equal(active, direct, stated);
    }
}

/// The certified structural count is the total length of all rows.
pub proof fn structural_count_is_exact(matrix: MatrixModel)
    requires
        matrix.wf(),
    ensures
        sums::sum_below(matrix.dimension(), |row: int| structural_in_row(matrix, row))
            == generator::structural_count(matrix),
{
    if matrix is RowSparse {
        lemma_row_sparse_total(matrix);
    } else {
        lemma_symmetric_total(matrix);
    }
}

/// Rows of a row-sparse matrix repeat: a whole period apart, and at the same
/// displacement, two rows hold the same structure and the same coefficient.
pub proof fn row_patterns_repeat(matrix: MatrixModel, row: int, displacement: int)
    requires
        matrix.wf(),
        matrix matches MatrixModel::RowSparse { diagonal, .. },
        0 <= row,
    ensures
        matrix matches MatrixModel::RowSparse { diagonal, .. } && matrix.coefficient(
            row + diagonal.len(),
            row + diagonal.len() + displacement,
        ) == matrix.coefficient(row, row + displacement) && matrix.structural(
            row + diagonal.len(),
            row + diagonal.len() + displacement,
        ) == matrix.structural(row, row + displacement),
{
    if let MatrixModel::RowSparse { width, offsets, values, diagonal, .. } = matrix {
        let period = diagonal.len() as int;
        assert((row + period) % period == row % period) by (nonlinear_arith)
            requires
                0 < period,
        ;
        let later = row + period;
        let start = matrix.pattern(row) * width;
        assert(matrix.pattern(later) == matrix.pattern(row));
        if displacement != 0 {
            sums::lemma_sum_equal(
                width,
                |k: int|
                    if offsets[start + k] == later + displacement - later {
                        values[start + k] as int
                    } else {
                        0
                    },
                |k: int|
                    if offsets[start + k] == row + displacement - row {
                        values[start + k] as int
                    } else {
                        0
                    },
            );
        }
    }
}

/// Seeded right-hand sides repeat with their period.
pub proof fn rhs_entries_repeat(rhs: generator::RhsModel, row: int)
    requires
        rhs.wf(),
        0 <= row,
    ensures
        rhs.mantissa(row + rhs.period()) == rhs.mantissa(row),
{
    if let generator::RhsModel::Periodic { table, .. } = rhs {
        let period = table.len() as int;
        assert((row + period) % period == row % period) by (nonlinear_arith)
            requires
                0 < period,
        ;
    }
}

/// A seeded right-hand side depends on the seed and its own recipe only: two
/// matrices of one dimension get the same one.
pub proof fn seeded_rhs_is_independent_of_the_matrix(
    rhs: problem::RhsSpec,
    first: MatrixModel,
    second: MatrixModel,
    seed: Seq<u8>,
)
    requires
        rhs is SeededPeriodicDyadicV1,
        first.dimension() == second.dimension(),
    ensures
        generator::compiled_rhs(rhs, first, seed) == generator::compiled_rhs(rhs, second, seed),
{
}

/// A seeded right-hand side that passes validation comes out with one entry for
/// each index of its period, every one within its range. Nothing but the end of
/// the seeded stream keeps it from coming out.
pub proof fn seeded_rhs_has_its_period_and_range(
    rhs: problem::RhsSpec,
    matrix: MatrixModel,
    seed: Seq<u8>,
)
    requires
        rhs is SeededPeriodicDyadicV1,
        problem::rhs_error(rhs) is None,
    ensures
        match generator::compiled_rhs(rhs, matrix, seed) {
            Ok(model) => {
                &&& model is Periodic
                &&& model->Periodic_dimension == matrix.dimension()
                &&& model->table.len() == pow2(rhs->period_bits as nat)
                &&& forall|i: int|
                    0 <= i < model->table.len() ==> rhs->minimum_mantissa <= #[trigger]
                    model->table[i] <= rhs->maximum_mantissa
            },
            Err(error) => error == problem::ProblemError::SeedStreamExhausted,
        },
{
    sampling::lemma_plain_table(
        generator::labelled(seed, generator::RHS_VALUES_LABEL),
        pow2(rhs->period_bits as nat),
        rhs->minimum_mantissa as int,
        rhs->maximum_mantissa as int,
    );
}

/// Every structural entry of a compiled matrix lies within the certified band.
pub proof fn entries_lie_within_the_band(
    recipe: problem::MatrixRecipe,
    seed: Seq<u8>,
    row: int,
    column: int,
)
    requires
        problem::matrix_error(recipe) is None,
        generator::compiled_matrix(recipe, seed) matches Some(matrix) && matrix.structural(
            row,
            column,
        ),
        0 <= row,
    ensures
        problem::magnitude(column - row) <= generator::recipe_half_bandwidth(recipe),
{
    let matrix = generator::compiled_matrix(recipe, seed).unwrap();
    generator::lemma_compiled_matrix(recipe, seed);
    if row != column {
        match recipe {
            problem::MatrixRecipe::RowSparse {
                dimension,
                row_pattern_bits,
                half_bandwidth,
                row_width,
                ..
            } => {
                let period = generator::row_patterns(row_pattern_bits, dimension as nat);
                let width = (row_width - 1) as nat;
                sampling::lemma_patterns(
                    generator::labelled(seed, generator::NONSYMMETRIC_STRUCTURE_LABEL),
                    half_bandwidth as nat,
                    width,
                    period,
                );
                if let MatrixModel::RowSparse { offsets, diagonal, .. } = matrix {
                    let k = choose|k: int|
                        0 <= k < width && #[trigger] offsets[matrix.pattern(row) * width + k]
                            == column - row;
                    assert(0 <= matrix.pattern(row) < diagonal.len());
                    assert(diagonal.len() == period) by {
                        generator::lemma_row_sparse_period(recipe, seed);
                    }
                    assert(offsets[matrix.pattern(row) * width + k] != 0);
                }
            },
            problem::MatrixRecipe::DiaLaplacian { edges, .. } => {
                let k = choose|k: int|
                    0 <= k < matrix.edges().len() && (#[trigger] matrix.edges()[k]).offset
                        == problem::magnitude(column - row);
                let last = matrix.edges().len() - 1;
                generator::lemma_dia_offsets(recipe, seed);
                if k < last {
                    assert(matrix.edges()[k].offset < matrix.edges()[last].offset);
                }
            },
            problem::MatrixRecipe::Tridiagonal { .. } => {},
        }
    }
}

/// The sum of a column's magnitudes.
pub open spec fn column_magnitude_sum(matrix: MatrixModel, column: int) -> int {
    sums::sum_below(
        matrix.dimension(),
        |row: int| problem::magnitude(matrix.coefficient(row, column)) as int,
    )
}

/// No single off-diagonal value of a row-sparse matrix exceeds its table.
proof fn lemma_row_sparse_entry(matrix: MatrixModel, row: int, column: int)
    requires
        matrix.wf(),
        0 <= row < matrix.dimension(),
        row != column,
    ensures
        matrix matches MatrixModel::RowSparse { values, .. } ==> problem::magnitude(
            matrix.coefficient(row, column),
        ) <= matrix::max_magnitude(values),
{
    if let MatrixModel::RowSparse { width, offsets, values, diagonal, .. } = matrix {
        matrix_laws::lemma_pattern(matrix, row);
        let p = matrix.pattern(row);
        let start = p * width;
        if matrix.structural(row, column) {
            let at = choose|k: int|
                0 <= k < width && #[trigger] offsets[matrix.pattern(row) * width + k] == column
                    - row;
            let term = |k: int|
                if offsets[start + k] == column - row {
                    values[start + k] as int
                } else {
                    0
                };
            assert forall|k: int| 0 <= k < width && k != at implies #[trigger] term(k) == 0 by {
                if k < at {
                    assert(offsets[p * width + k] < offsets[p * width + at]);
                } else {
                    assert(offsets[p * width + at] < offsets[p * width + k]);
                }
            }
            sums::lemma_sum_single(width, term, at);
            matrix::lemma_max_magnitude(values, start + at);
        } else {
            unlisted_coefficients_are_zero(matrix, row, column);
        }
    }
}

/// How many other indices lie within a distance of one.
proof fn lemma_neighbours(count: nat, at: int, distance: nat)
    requires
        0 <= at < count,
    ensures
        ({
            let near = |i: int|
                if i != at && problem::magnitude(at - i) <= distance {
                    1int
                } else {
                    0
                };
            &&& sums::sum_below(count, near) <= count - 1
            &&& sums::sum_below(count, near) <= 2 * distance
        }),
{
    let near = |i: int|
        if i != at && problem::magnitude(at - i) <= distance {
            1int
        } else {
            0
        };
    let low = if at < distance {
        0
    } else {
        at - distance
    };
    let high = if at + distance + 1 < count {
        at + distance + 1
    } else {
        count as int
    };
    let window = |i: int|
        if low <= i < high {
            1
        } else {
            0int
        };
    let own = |i: int|
        if i == at {
            1int
        } else {
            0
        };
    sums::lemma_sum_range(count, low, high);
    sums::lemma_sum_indicator(count, at, 1);
    sums::lemma_sum_add(count, near, own);
    sums::lemma_sum_equal(count, window, |i: int| near(i) + own(i));
}

/// No column's absolute sum exceeds the certified column-sum bound.
pub proof fn column_sums_are_bounded(recipe: problem::MatrixRecipe, seed: Seq<u8>, column: int)
    requires
        problem::matrix_error(recipe) is None,
        generator::compiled_matrix(recipe, seed) matches Some(matrix) && 0 <= column
            < matrix.dimension(),
    ensures
        generator::compiled_matrix(recipe, seed) matches Some(matrix) && column_magnitude_sum(
            matrix,
            column,
        ) <= generator::column_sum_bound(matrix, generator::recipe_half_bandwidth(recipe)),
{
    let matrix = generator::compiled_matrix(recipe, seed).unwrap();
    generator::lemma_compiled_matrix(recipe, seed);
    let dimension = matrix.dimension();
    let down = |row: int| problem::magnitude(matrix.coefficient(row, column)) as int;
    match matrix {
        MatrixModel::RowSparse { values, diagonal, .. } => {
            let distance = generator::recipe_half_bandwidth(recipe);
            let bound = matrix::max_magnitude(values) as int;
            let peak = matrix::max_magnitude(diagonal) as int;
            let near = |i: int|
                if i != column && problem::magnitude(column - i) <= distance {
                    1int
                } else {
                    0
                };
            let own = |i: int|
                if i == column {
                    peak
                } else {
                    0
                };
            let scaled = |i: int| bound * near(i);
            assert forall|row: int| 0 <= row < dimension implies #[trigger] down(row) <= scaled(
                row,
            ) + own(row) by {
                if row == column {
                    matrix_laws::lemma_pattern(matrix, row);
                    matrix::lemma_max_magnitude(diagonal, matrix.pattern(row));
                    assert(bound * 0 == 0) by (nonlinear_arith);
                } else if matrix.structural(row, column) {
                    entries_lie_within_the_band(recipe, seed, row, column);
                    lemma_row_sparse_entry(matrix, row, column);
                    assert(bound * 1 == bound) by (nonlinear_arith);
                } else {
                    unlisted_coefficients_are_zero(matrix, row, column);
                    assert(bound * near(row) >= 0) by (nonlinear_arith)
                        requires
                            bound >= 0,
                            near(row) >= 0,
                    ;
                }
            }
            let both = |i: int| scaled(i) + own(i);
            sums::lemma_sum_monotonic(dimension, down, both);
            sums::lemma_sum_add(dimension, scaled, own);
            sums::lemma_sum_scale(dimension, bound, near);
            sums::lemma_sum_indicator(dimension, column, peak);
            lemma_neighbours(dimension, column, distance);
            let sources = sums::sum_below(dimension, near);
            let limit = if dimension - 1 < 2 * distance {
                dimension - 1
            } else {
                2 * distance as int
            };
            assert(bound * sources <= bound * limit) by (nonlinear_arith)
                requires
                    0 <= bound,
                    sources <= limit,
            ;
        },
        _ => {
            let along = |other: int| problem::magnitude(matrix.coefficient(column, other)) as int;
            assert forall|row: int| 0 <= row < dimension implies #[trigger] down(row) == along(
                row,
            ) by {
                matrix::coefficients_are_symmetric(matrix, row, column);
            }
            sums::lemma_sum_equal(dimension, down, along);
            matrix_laws::row_sums_are_bounded(matrix, column);
        },
    }
}

} // verus!
