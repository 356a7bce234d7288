//! Compiled periodic sparse matrices: what each family's coefficients are, and
//! the compact tables that produce them.

use vstd::arithmetic::power2::*;
use vstd::prelude::*;

use crate::powers;
use crate::problem;
use crate::problem::Dyadic;
use crate::sums;

verus! {

/// One sorted structural matrix entry.
#[derive(Clone, Copy, Debug, PartialEq, Eq, Structural)]
pub struct MatrixEntry {
    pub column: usize,
    pub value: Dyadic,
}

/// One diagonal of undirected edges: the edge between rows `a` and `a + offset`
/// has the negative value `table[a mod table.len()]`.
#[verifier::ext_equal]
pub struct EdgeModel {
    pub offset: nat,
    pub table: Seq<i64>,
}

impl EdgeModel {
    /// The value of the edge whose lower endpoint is `anchor`.
    pub open spec fn value(self, anchor: int) -> int {
        self.table[anchor % self.table.len() as int] as int
    }

    /// The edge weight that meets row `row` of a matrix with `dimension` rows.
    pub open spec fn incident(self, dimension: nat, row: int) -> int {
        (if self.offset <= row {
            problem::magnitude(self.value(row - self.offset)) as int
        } else {
            0
        }) + (if row + self.offset < dimension {
            problem::magnitude(self.value(row)) as int
        } else {
            0
        })
    }
}

/// What a compiled matrix is.
#[verifier::ext_equal]
pub enum MatrixModel {
    /// Edges join neighbouring rows; each diagonal entry exceeds its row's
    /// absolute off-diagonal sum by `margin`.
    Tridiagonal { dimension: nat, fractional_bits: u8, margin: nat, table: Seq<i64> },
    /// A graph Laplacian over several edge diagonals, shifted by `shift`.
    DiaLaplacian { dimension: nat, fractional_bits: u8, shift: nat, edges: Seq<EdgeModel> },
    /// Row `i` repeats pattern `i mod diagonal.len()`: a diagonal value and
    /// `width` values at signed column displacements.
    RowSparse {
        dimension: nat,
        fractional_bits: u8,
        width: nat,
        offsets: Seq<i32>,
        values: Seq<i64>,
        diagonal: Seq<i64>,
    },
}

/// Whether a length is an admissible table period: a power of two up to the
/// largest supported one.
pub open spec fn is_period(length: nat) -> bool {
    &&& 0 < length <= 65536
    &&& exists|bits: nat| bits <= problem::MAX_PERIOD_BITS && length == #[trigger] pow2(bits)
}

pub proof fn lemma_period_length(bits: nat)
    requires
        bits <= problem::MAX_PERIOD_BITS,
    ensures
        0 < pow2(bits) <= 65536,
        is_period(pow2(bits)),
{
    lemma2_to64();
    lemma_pow2_pos(bits);
    if bits < 16 {
        lemma_pow2_strictly_increases(bits, 16);
    }
}

/// Largest magnitude in a table; zero if it is empty.
pub open spec fn max_magnitude(table: Seq<i64>) -> nat
    decreases table.len(),
{
    if table.len() == 0 {
        0
    } else {
        let before = max_magnitude(table.drop_last());
        let last = problem::magnitude(table.last() as int);
        if last > before {
            last
        } else {
            before
        }
    }
}

/// Smallest magnitude in a table; zero if it is empty.
pub open spec fn min_magnitude(table: Seq<i64>) -> nat
    decreases table.len(),
{
    if table.len() == 0 {
        0
    } else {
        let last = problem::magnitude(table.last() as int);
        if table.len() == 1 {
            last
        } else {
            let before = min_magnitude(table.drop_last());
            if last < before {
                last
            } else {
                before
            }
        }
    }
}

/// Twice the sum of the largest magnitudes of the first `count` edge tables.
pub open spec fn incident_weight_bound(edges: Seq<EdgeModel>, count: nat) -> nat
    decreases count,
{
    if count == 0 {
        0
    } else {
        incident_weight_bound(edges, (count - 1) as nat) + 2 * max_magnitude(
            edges[count - 1].table,
        )
    }
}

impl MatrixModel {
    pub open spec fn dimension(self) -> nat {
        match self {
            MatrixModel::Tridiagonal { dimension, .. } => dimension,
            MatrixModel::DiaLaplacian { dimension, .. } => dimension,
            MatrixModel::RowSparse { dimension, .. } => dimension,
        }
    }

    pub open spec fn fractional_bits(self) -> u8 {
        match self {
            MatrixModel::Tridiagonal { fractional_bits, .. } => fractional_bits,
            MatrixModel::DiaLaplacian { fractional_bits, .. } => fractional_bits,
            MatrixModel::RowSparse { fractional_bits, .. } => fractional_bits,
        }
    }

    /// The edge diagonals of a symmetric family.
    pub open spec fn edges(self) -> Seq<EdgeModel> {
        match self {
            MatrixModel::Tridiagonal { table, .. } => seq![EdgeModel { offset: 1, table }],
            MatrixModel::DiaLaplacian { edges, .. } => edges,
            MatrixModel::RowSparse { .. } => Seq::empty(),
        }
    }

    /// By how much each diagonal entry of a symmetric family exceeds its row's
    /// absolute off-diagonal sum.
    pub open spec fn margin(self) -> nat {
        match self {
            MatrixModel::Tridiagonal { margin, .. } => margin,
            MatrixModel::DiaLaplacian { shift, .. } => shift,
            MatrixModel::RowSparse { .. } => 0,
        }
    }

    /// The row pattern of a row-sparse matrix.
    pub open spec fn pattern(self, row: int) -> int {
        match self {
            MatrixModel::RowSparse { diagonal, .. } => row % diagonal.len() as int,
            _ => 0,
        }
    }

    /// The exact mantissa at a row and a column.
    pub open spec fn coefficient(self, row: int, column: int) -> int {
        match self {
            MatrixModel::RowSparse { width, offsets, values, diagonal, .. } => {
                let start = self.pattern(row) * width;
                if row == column {
                    diagonal[self.pattern(row)] as int
                } else {
                    sums::sum_below(
                        width,
                        |k: int|
                            if offsets[start + k] == column - row {
                                values[start + k] as int
                            } else {
                                0
                            },
                    )
                }
            },
            _ => if row == column {
                self.margin() + sums::sum_below(
                    self.edges().len(),
                    |k: int| self.edges()[k].incident(self.dimension(), row),
                )
            } else {
                let lower = if row < column {
                    row
                } else {
                    column
                };
                sums::sum_below(
                    self.edges().len(),
                    |k: int|
                        if self.edges()[k].offset == problem::magnitude(column - row) {
                            self.edges()[k].value(lower)
                        } else {
                            0
                        },
                )
            },
        }
    }

    /// Whether the sparsity pattern holds an entry at a row and a column.
    pub open spec fn structural(self, row: int, column: int) -> bool {
        match self {
            MatrixModel::RowSparse { width, offsets, .. } => row == column || exists|k: int|
                0 <= k < width && #[trigger] offsets[self.pattern(row) * width + k] == column
                    - row,
            _ => row == column || exists|k: int|
                0 <= k < self.edges().len() && (#[trigger] self.edges()[k]).offset
                    == problem::magnitude(column - row),
        }
    }

    /// The tables meet the bounds that the generator guarantees.
    pub open spec fn wf(self) -> bool {
        &&& 2 <= self.dimension() <= problem::MAX_DIMENSION
        &&& self.fractional_bits() <= problem::MAX_FRACTIONAL_BITS
        &&& match self {
            MatrixModel::RowSparse { dimension, width, offsets, values, diagonal, .. } => {
                &&& is_period(diagonal.len())
                &&& diagonal.len() <= powers::padded(dimension)
                &&& width <= 254
                &&& offsets.len() == diagonal.len() * width
                &&& values.len() == diagonal.len() * width
                &&& forall|p: int, k: int|
                    0 <= p < diagonal.len() && 0 <= k < width ==> {
                        let offset = #[trigger] offsets[p * width + k];
                        offset != 0 && problem::magnitude(offset as int) < dimension
                    }
                &&& forall|p: int, k: int, l: int|
                    0 <= p < diagonal.len() && 0 <= k < l < width ==> #[trigger] offsets[p * width
                        + k] < #[trigger] offsets[p * width + l]
                &&& forall|i: int|
                    0 <= i < values.len() ==> #[trigger] values[i] != 0 && problem::magnitude(
                        values[i] as int,
                    ) <= problem::MAX_EXACT_BINARY64_MANTISSA
                &&& forall|p: int|
                    0 <= p < diagonal.len() ==> #[trigger] diagonal[p] != 0 && problem::magnitude(
                        diagonal[p] as int,
                    ) <= problem::MAX_EXACT_BINARY64_MANTISSA
            },
            _ => {
                &&& 0 < self.edges().len() <= problem::MAX_EDGE_DIAGONALS
                &&& 0 < self.margin()
                &&& forall|k: int| #![trigger self.edges()[k]]
                    0 <= k < self.edges().len() ==> {
                        &&& 0 < self.edges()[k].offset < self.dimension()
                        &&& is_period(self.edges()[k].table.len())
                        &&& forall|i: int|
                            0 <= i < self.edges()[k].table.len()
                                ==> #[trigger] self.edges()[k].table[i] < 0
                    }
                &&& forall|k: int, l: int|
                    0 <= k < l < self.edges().len() ==> (#[trigger] self.edges()[k]).offset < (
                    #[trigger] self.edges()[l]).offset
                &&& incident_weight_bound(self.edges(), self.edges().len()) + self.margin()
                    <= problem::MAX_EXACT_BINARY64_MANTISSA
            },
        }
    }
}

/// All edge values of a symmetric family, table after table.
pub open spec fn flat_edges(edges: Seq<EdgeModel>, count: nat) -> Seq<i64>
    decreases count,
{
    if count == 0 {
        Seq::empty()
    } else {
        flat_edges(edges, (count - 1) as nat) + edges[count - 1].table
    }
}

/// The periodic off-diagonal values in compiled-family order.
pub open spec fn off_diagonal_values(matrix: MatrixModel) -> Seq<i64> {
    match matrix {
        MatrixModel::RowSparse { values, .. } => values,
        MatrixModel::Tridiagonal { table, .. } => table,
        MatrixModel::DiaLaplacian { edges, .. } => flat_edges(edges, edges.len()),
    }
}

/// Reviewed semantics of each family's public evaluator.
pub open spec fn evaluator_version(matrix: MatrixModel) -> u16 {
    match matrix {
        MatrixModel::Tridiagonal { .. } => 1,
        MatrixModel::DiaLaplacian { .. } => 2,
        MatrixModel::RowSparse { .. } => 3,
    }
}

/// Whether a sequence of entries lists the structural entries of a row, sorted
/// by column, each with its exact coefficient.
pub open spec fn lists_row(matrix: MatrixModel, row: int, entries: Seq<MatrixEntry>) -> bool {
    &&& forall|p: int, q: int|
        0 <= p < q < entries.len() ==> (#[trigger] entries[p]).column < (
        #[trigger] entries[q]).column
    &&& forall|p: int|
        0 <= p < entries.len() ==> {
            let entry = #[trigger] entries[p];
            &&& entry.column < matrix.dimension()
            &&& matrix.structural(row, entry.column as int)
            &&& entry.value.mantissa == matrix.coefficient(row, entry.column as int)
            &&& entry.value.fractional_bits == matrix.fractional_bits()
        }
    &&& forall|column: int|
        0 <= column < matrix.dimension() && #[trigger] matrix.structural(row, column)
            ==> exists|p: int|
            0 <= p < entries.len() && (#[trigger] entries[p]).column == column
}

pub proof fn lemma_max_magnitude(table: Seq<i64>, index: int)
    requires
        0 <= index < table.len(),
    ensures
        problem::magnitude(table[index] as int) <= max_magnitude(table),
    decreases table.len(),
{
    if index < table.len() - 1 {
        lemma_max_magnitude(table.drop_last(), index);
    }
}

pub proof fn lemma_incident_weight(
    edges: Seq<EdgeModel>,
    dimension: nat,
    row: int,
    count: nat,
)
    requires
        count <= edges.len(),
        0 <= row,
        forall|k: int| 0 <= k < edges.len() ==> 0 < (#[trigger] edges[k]).table.len(),
    ensures
        0 <= sums::sum_below(count, |k: int| edges[k].incident(dimension, row))
            <= incident_weight_bound(edges, count),
    decreases count,
{
    if count > 0 {
        lemma_incident_weight(edges, dimension, row, (count - 1) as nat);
        let edge = edges[count - 1];
        if edge.offset <= row {
            lemma_max_magnitude(edge.table, (row - edge.offset) % edge.table.len() as int);
        }
        lemma_max_magnitude(edge.table, row % edge.table.len() as int);
    }
}

pub proof fn lemma_incident_weight_bound_monotonic(edges: Seq<EdgeModel>, fewer: nat, count: nat)
    requires
        fewer <= count,
    ensures
        incident_weight_bound(edges, fewer) <= incident_weight_bound(edges, count),
    decreases count,
{
    if fewer < count {
        lemma_incident_weight_bound_monotonic(edges, fewer, (count - 1) as nat);
    }
}

/// Every coefficient of a symmetric family is a bounded integer: off the
/// diagonal it is one edge value, on it the margin and the incident weight.
pub proof fn lemma_symmetric_coefficient(matrix: MatrixModel, row: int, column: int)
    requires
        matrix.wf(),
        !(matrix is RowSparse),
        0 <= row < matrix.dimension(),
        0 <= column < matrix.dimension(),
    ensures
        row == column ==> matrix.margin() <= matrix.coefficient(row, column)
            <= problem::MAX_EXACT_BINARY64_MANTISSA,
        row != column && matrix.structural(row, column) ==> matrix.coefficient(row, column) < 0,
        row != column && !matrix.structural(row, column) ==> matrix.coefficient(row, column) == 0,
        forall|k: int|
            0 <= k < matrix.edges().len() && row != column && (#[trigger] matrix.edges()[k]).offset
                == problem::magnitude(column - row) ==> matrix.coefficient(row, column)
                == matrix.edges()[k].value(
                if row < column {
                    row
                } else {
                    column
                },
            ),
{
    let edges = matrix.edges();
    let lower = if row < column {
        row
    } else {
        column
    };
    if row == column {
        lemma_incident_weight(edges, matrix.dimension(), row, edges.len());
        sums::lemma_sum_equal(
            edges.len(),
            |k: int| matrix.edges()[k].incident(matrix.dimension(), row),
            |k: int| edges[k].incident(matrix.dimension(), row),
        );
    } else {
        let term = |k: int|
            if matrix.edges()[k].offset == problem::magnitude(column - row) {
                matrix.edges()[k].value(lower)
            } else {
                0
            };
        assert forall|k: int|
            0 <= k < edges.len() && (#[trigger] edges[k]).offset == problem::magnitude(
                column - row,
            ) implies matrix.coefficient(row, column) == edges[k].value(lower) && edges[k].value(
            lower,
        ) < 0 by {
            assert forall|l: int| 0 <= l < edges.len() && l != k implies #[trigger] term(l)
                == 0 by {
                if l < k {
                    assert(edges[l].offset < edges[k].offset);
                } else {
                    assert(edges[k].offset < edges[l].offset);
                }
            }
            sums::lemma_sum_single(edges.len(), term, k);
            assert(edges[k].table[lower % edges[k].table.len() as int] < 0);
        }
        if !matrix.structural(row, column) {
            assert forall|k: int| 0 <= k < edges.len() implies #[trigger] term(k) == 0 by {
                assert(edges[k].offset != problem::magnitude(column - row));
            }
            sums::lemma_sum_zero(edges.len(), term);
        }
    }
}

/// The symmetric families are symmetric.
pub proof fn coefficients_are_symmetric(matrix: MatrixModel, row: int, column: int)
    requires
        !(matrix is RowSparse),
    ensures
        matrix.coefficient(row, column) == matrix.coefficient(column, row),
        matrix.structural(row, column) == matrix.structural(column, row),
{
    let lower = if row < column {
        row
    } else {
        column
    };
    if row != column {
        sums::lemma_sum_equal(
            matrix.edges().len(),
            |k: int|
                if matrix.edges()[k].offset == problem::magnitude(column - row) {
                    matrix.edges()[k].value(lower)
                } else {
                    0
                },
            |k: int|
                if matrix.edges()[k].offset == problem::magnitude(row - column) {
                    matrix.edges()[k].value(lower)
                } else {
                    0
                },
        );
        assert(problem::magnitude(column - row) == problem::magnitude(row - column));
    }
}

} // verus!
