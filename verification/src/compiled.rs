//! Compact periodic tables of the matrix families and their row iterators.

use vstd::prelude::*;

use crate::generator::GeneratorCertificate;
use crate::matrix;
use crate::matrix::{EdgeModel, MatrixEntry, MatrixModel};
use crate::problem;
use crate::problem::Dyadic;
use crate::sums;

verus! {

#[derive(Clone, Debug, PartialEq, Eq)]
pub(crate) struct PeriodicSymmetricTridiagonal {
    pub(crate) dimension: usize,
    pub(crate) fractional_bits: u8,
    pub(crate) margin_mantissa: u64,
    /// Negative mantissas for edges `(i, i + 1)`, indexed by `i mod period`.
    pub(crate) off_diagonal_mantissas: Vec<i64>,
}

/// One positive-offset generated diagonal backed by a range in the flat table.
#[derive(Clone, Copy, Debug, PartialEq, Eq, Structural)]
pub(crate) struct DiaEdgeDescriptor {
    pub(crate) positive_offset: usize,
    pub(crate) table_start: usize,
    pub(crate) table_len: usize,
}

/// Compact shifted graph Laplacian with generated undirected edge diagonals.
///
/// Symmetry is derived from one canonical positive-offset edge table rather
/// than independently generated rows.
#[derive(Clone, Debug, PartialEq, Eq)]
pub(crate) struct PeriodicSymmetricDiaLaplacian {
    pub(crate) dimension: usize,
    pub(crate) fractional_bits: u8,
    pub(crate) diagonal_shift_mantissa: u64,
    pub(crate) edges: Vec<DiaEdgeDescriptor>,
    /// Negative matrix off-diagonal mantissas, flattened by edge descriptor.
    pub(crate) off_diagonal_mantissas: Vec<i64>,
}

/// Periodic, independently generated sparse rows in structure-of-arrays form.
///
/// Each pattern owns a sorted, duplicate-free slice of nonzero signed offsets
/// and a parallel value slice. Diagonal values live in a separate flat table,
/// allowing rows to merge the mandatory diagonal without copying or allocating.
#[derive(Clone, Debug, PartialEq, Eq)]
pub(crate) struct PeriodicNonsymmetricRowSparse {
    pub(crate) dimension: usize,
    pub(crate) fractional_bits: u8,
    pub(crate) off_diagonals_per_pattern: usize,
    pub(crate) signed_offsets: Vec<i32>,
    pub(crate) off_diagonal_mantissas: Vec<i64>,
    pub(crate) diagonal_mantissas: Vec<i64>,
}

#[derive(Clone, Debug, PartialEq, Eq)]
pub(crate) enum CompiledMatrixFamily {
    Tridiagonal(PeriodicSymmetricTridiagonal),
    SymmetricDiaLaplacian(PeriodicSymmetricDiaLaplacian),
    NonsymmetricRowSparse(PeriodicNonsymmetricRowSparse),
}

/// The edge model that a descriptor selects from a flat table.
pub(crate) open spec fn described_edge(descriptor: DiaEdgeDescriptor, table: Seq<i64>) -> EdgeModel {
    EdgeModel {
        offset: descriptor.positive_offset as nat,
        table: table.subrange(
            descriptor.table_start as int,
            descriptor.table_start + descriptor.table_len,
        ),
    }
}

impl PeriodicSymmetricTridiagonal {
    pub(crate) open spec fn model(&self) -> MatrixModel {
        MatrixModel::Tridiagonal {
            dimension: self.dimension as nat,
            fractional_bits: self.fractional_bits,
            margin: self.margin_mantissa as nat,
            table: self.off_diagonal_mantissas@,
        }
    }

    pub(crate) fn edge_mantissa(&self, lower_endpoint: usize) -> (value: i64)
        requires
            self.model().wf(),
        ensures
            value == self.model().edges()[0].value(lower_endpoint as int),
            value < 0,
            problem::magnitude(value as int) <= matrix::max_magnitude(
                self.off_diagonal_mantissas@,
            ),
    {
        assert(self.model().edges()[0].table == self.off_diagonal_mantissas@);
        let index: usize = lower_endpoint % self.off_diagonal_mantissas.len();
        proof {
            assert(self.model().edges()[0].table[index as int] < 0);
            matrix::lemma_max_magnitude(self.off_diagonal_mantissas@, index as int);
        }
        self.off_diagonal_mantissas[index]
    }
}

impl PeriodicSymmetricDiaLaplacian {
    pub(crate) open spec fn model(&self) -> MatrixModel {
        MatrixModel::DiaLaplacian {
            dimension: self.dimension as nat,
            fractional_bits: self.fractional_bits,
            shift: self.diagonal_shift_mantissa as nat,
            edges: Seq::new(
                self.edges@.len(),
                |k: int| described_edge(self.edges@[k], self.off_diagonal_mantissas@),
            ),
        }
    }

    /// Every descriptor selects a range of the flat table.
    pub(crate) open spec fn tables_fit(&self) -> bool {
        forall|k: int|
            0 <= k < self.edges@.len() ==> {
                let edge = #[trigger] self.edges@[k];
                edge.table_start + edge.table_len <= self.off_diagonal_mantissas@.len()
            }
    }

    pub(crate) fn edge_mantissa(&self, edge: usize, anchor: usize) -> (value: i64)
        requires
            self.model().wf(),
            self.tables_fit(),
            edge < self.edges@.len(),
        ensures
            value == self.model().edges()[edge as int].value(anchor as int),
            value < 0,
            problem::magnitude(value as int) <= matrix::max_magnitude(
                self.model().edges()[edge as int].table,
            ),
    {
        let descriptor = self.edges[edge];
        let ghost model_edge = self.model().edges()[edge as int];
        assert(model_edge == described_edge(descriptor, self.off_diagonal_mantissas@));
        let index: usize = anchor % descriptor.table_len;
        proof {
            assert(model_edge.table[index as int] < 0);
            matrix::lemma_max_magnitude(model_edge.table, index as int);
            assert(self.off_diagonal_mantissas.len() == self.off_diagonal_mantissas@.len());
        }
        self.off_diagonal_mantissas[descriptor.table_start + index]
    }
}

impl PeriodicNonsymmetricRowSparse {
    pub(crate) open spec fn model(&self) -> MatrixModel {
        MatrixModel::RowSparse {
            dimension: self.dimension as nat,
            fractional_bits: self.fractional_bits,
            width: self.off_diagonals_per_pattern as nat,
            offsets: self.signed_offsets@,
            values: self.off_diagonal_mantissas@,
            diagonal: self.diagonal_mantissas@,
        }
    }

    pub(crate) fn period(&self) -> (period: usize)
        ensures
            period == self.diagonal_mantissas@.len(),
    {
        self.diagonal_mantissas.len()
    }

    /// How many of a pattern's offsets lie below a bound.
    fn offsets_below(&self, pattern: usize, bound: i64) -> (count: usize)
        requires
            self.model().wf(),
            pattern < self.diagonal_mantissas@.len(),
        ensures
            count <= self.off_diagonals_per_pattern,
            forall|k: int|
                0 <= k < count ==> #[trigger] self.signed_offsets@[pattern
                    * self.off_diagonals_per_pattern + k] < bound,
            forall|k: int|
                count <= k < self.off_diagonals_per_pattern ==> #[trigger] self.signed_offsets@[
                pattern * self.off_diagonals_per_pattern + k] >= bound,
    {
        let width: usize = self.off_diagonals_per_pattern;
        proof {
            lemma_pattern_range(
                pattern as int,
                self.diagonal_mantissas@.len() as int,
                width as int,
            );
            assert(self.signed_offsets.len() == self.signed_offsets@.len());
        }
        let start: usize = pattern * width;
        let mut count: usize = 0;
        while count < width && (self.signed_offsets[start + count] as i64) < bound
            invariant
                self.signed_offsets.len() == self.signed_offsets@.len(),
                self.model().wf(),
                pattern < self.diagonal_mantissas@.len(),
                width == self.off_diagonals_per_pattern,
                start == pattern * width,
                start + width <= self.signed_offsets@.len(),
                count <= width,
                forall|k: int|
                    0 <= k < count ==> #[trigger] self.signed_offsets@[pattern * width + k]
                        < bound,
            decreases width - count,
        {
            count = count + 1;
        }
        proof {
            if count < width {
                assert forall|k: int| count <= k < width implies #[trigger] self.signed_offsets@[
                pattern * width + k] >= bound by {
                    if count < k {
                        assert(self.signed_offsets@[pattern * width + count]
                            < self.signed_offsets@[pattern * width + k]);
                    }
                }
            }
        }
        count
    }
}

pub(crate) proof fn lemma_pattern_range(pattern: int, period: int, width: int)
    requires
        0 <= pattern < period,
        0 <= width,
    ensures
        0 <= pattern * width,
        pattern * width + width <= period * width,
{
    assert(0 <= pattern * width && pattern * width + width <= period * width) by (nonlinear_arith)
        requires
            0 <= pattern < period,
            0 <= width,
    ;
}

impl CompiledMatrixFamily {
    pub(crate) open spec fn model(&self) -> MatrixModel {
        match self {
            CompiledMatrixFamily::Tridiagonal(matrix) => matrix.model(),
            CompiledMatrixFamily::SymmetricDiaLaplacian(matrix) => matrix.model(),
            CompiledMatrixFamily::NonsymmetricRowSparse(matrix) => matrix.model(),
        }
    }

    pub(crate) open spec fn wf(&self) -> bool {
        &&& self.model().wf()
        &&& self matches CompiledMatrixFamily::SymmetricDiaLaplacian(matrix) ==> matrix.tables_fit()
            && matrix.off_diagonal_mantissas@ == matrix::off_diagonal_values(self.model())
    }

    pub(crate) fn dimension(&self) -> (dimension: usize)
        ensures
            dimension == self.model().dimension(),
    {
        match self {
            CompiledMatrixFamily::Tridiagonal(matrix) => matrix.dimension,
            CompiledMatrixFamily::SymmetricDiaLaplacian(matrix) => matrix.dimension,
            CompiledMatrixFamily::NonsymmetricRowSparse(matrix) => matrix.dimension,
        }
    }

    pub(crate) fn row(&self, row: usize) -> (entries: MatrixRow<'_>)
        requires
            self.wf(),
            row < self.model().dimension(),
        ensures
            entries.wf(),
            matrix::lists_row(self.model(), row as int, entries@),
    {
        match self {
            CompiledMatrixFamily::Tridiagonal(matrix) => MatrixRow {
                inner: MatrixRowInner::Tridiagonal(TridiagonalMatrixRow::new(matrix, row)),
            },
            CompiledMatrixFamily::SymmetricDiaLaplacian(matrix) => MatrixRow {
                inner: MatrixRowInner::SymmetricDiaLaplacian(DiaMatrixRow::new(matrix, row)),
            },
            CompiledMatrixFamily::NonsymmetricRowSparse(matrix) => MatrixRow {
                inner: MatrixRowInner::NonsymmetricRowSparse(
                    NonsymmetricMatrixRow::new(matrix, row),
                ),
            },
        }
    }
}

fn copy_table(table: &Vec<i64>) -> (copy: Vec<i64>)
    ensures
        copy@ == table@,
{
    vstd::slice::slice_to_vec(table.as_slice())
}

impl CompiledMatrixFamily {
    pub(crate) fn duplicate(&self) -> (copy: CompiledMatrixFamily)
        ensures
            copy.model() == self.model(),
            self.wf() ==> copy.wf(),
    {
        match self {
            CompiledMatrixFamily::Tridiagonal(matrix) => CompiledMatrixFamily::Tridiagonal(
                PeriodicSymmetricTridiagonal {
                    dimension: matrix.dimension,
                    fractional_bits: matrix.fractional_bits,
                    margin_mantissa: matrix.margin_mantissa,
                    off_diagonal_mantissas: copy_table(&matrix.off_diagonal_mantissas),
                },
            ),
            CompiledMatrixFamily::SymmetricDiaLaplacian(matrix) => {
                let copy = PeriodicSymmetricDiaLaplacian {
                    dimension: matrix.dimension,
                    fractional_bits: matrix.fractional_bits,
                    diagonal_shift_mantissa: matrix.diagonal_shift_mantissa,
                    edges: vstd::slice::slice_to_vec(matrix.edges.as_slice()),
                    off_diagonal_mantissas: copy_table(&matrix.off_diagonal_mantissas),
                };
                assert(copy.model().edges() =~= matrix.model().edges());
                CompiledMatrixFamily::SymmetricDiaLaplacian(copy)
            },
            CompiledMatrixFamily::NonsymmetricRowSparse(matrix) => {
                CompiledMatrixFamily::NonsymmetricRowSparse(
                    PeriodicNonsymmetricRowSparse {
                        dimension: matrix.dimension,
                        fractional_bits: matrix.fractional_bits,
                        off_diagonals_per_pattern: matrix.off_diagonals_per_pattern,
                        signed_offsets: vstd::slice::slice_to_vec(
                            matrix.signed_offsets.as_slice(),
                        ),
                        off_diagonal_mantissas: copy_table(&matrix.off_diagonal_mantissas),
                        diagonal_mantissas: copy_table(&matrix.diagonal_mantissas),
                    },
                )
            },
        }
    }

    pub(crate) fn manufactured_ones_value(&self) -> (value: Option<Dyadic>)
        requires
            self.wf(),
        ensures
            (match value {
                Some(found) => !(self.model() is RowSparse) && found.mantissa
                    == self.model().margin() && found.fractional_bits
                    == self.model().fractional_bits() && problem::magnitude(found.mantissa as int)
                    <= problem::MAX_EXACT_BINARY64_MANTISSA,
                None => self.model() is RowSparse,
            }),
    {
        match self {
            CompiledMatrixFamily::Tridiagonal(matrix) => Some(
                Dyadic::new(matrix.margin_mantissa as i64, matrix.fractional_bits),
            ),
            CompiledMatrixFamily::SymmetricDiaLaplacian(matrix) => Some(
                Dyadic::new(matrix.diagonal_shift_mantissa as i64, matrix.fractional_bits),
            ),
            CompiledMatrixFamily::NonsymmetricRowSparse(_) => None,
        }
    }

    pub(crate) fn off_diagonal_mantissas(&self) -> (values: &[i64])
        requires
            self.wf(),
        ensures
            values@ == matrix::off_diagonal_values(self.model()),
    {
        match self {
            CompiledMatrixFamily::Tridiagonal(matrix) => matrix.off_diagonal_mantissas.as_slice(),
            CompiledMatrixFamily::SymmetricDiaLaplacian(matrix) => {
                matrix.off_diagonal_mantissas.as_slice()
            },
            CompiledMatrixFamily::NonsymmetricRowSparse(matrix) => {
                matrix.off_diagonal_mantissas.as_slice()
            },
        }
    }

    /// Reviewed semantics of the family's public evaluator.
    pub(crate) fn evaluator_version(&self) -> (version: u16)
        ensures
            version == matrix::evaluator_version(self.model()),
    {
        match self {
            CompiledMatrixFamily::Tridiagonal(_) => 1,
            CompiledMatrixFamily::SymmetricDiaLaplacian(_) => 2,
            CompiledMatrixFamily::NonsymmetricRowSparse(_) => 3,
        }
    }

    /// The most patterns that one evaluation examines: the first evaluator
    /// never examines more of them than its domain has points.
    pub(crate) fn public_matrix_terms(
        &self,
        certificate: &GeneratorCertificate,
        padded_dimension: usize,
    ) -> (terms: usize)
        ensures
            terms == (if self.model() is Tridiagonal && padded_dimension
                < certificate.matrix_period {
                padded_dimension
            } else {
                certificate.matrix_period
            }),
    {
        if self.evaluator_version() == 1 && padded_dimension < certificate.matrix_period {
            padded_dimension
        } else {
            certificate.matrix_period
        }
    }
}

#[derive(Clone, Debug)]
struct TridiagonalMatrixRow {
    entries: [MatrixEntry; 3],
    front: u8,
    back: u8,
}

impl TridiagonalMatrixRow {
    spec fn remaining(&self) -> Seq<MatrixEntry> {
        self.entries@.subrange(self.front as int, self.back as int)
    }

    spec fn wf(&self) -> bool {
        self.front <= self.back <= 3
    }

    fn new(matrix: &PeriodicSymmetricTridiagonal, row: usize) -> (entries: TridiagonalMatrixRow)
        requires
            matrix.model().wf(),
            row < matrix.dimension,
        ensures
            entries.wf(),
            matrix::lists_row(matrix.model(), row as int, entries.remaining()),
    {
        let ghost model = matrix.model();
        let ghost edge = model.edges()[0];
        proof {
            reveal_with_fuel(matrix::incident_weight_bound, 2);
            reveal_with_fuel(sums::sum_below, 2);
            assert(edge.table == matrix.off_diagonal_mantissas@);
        }
        let empty = MatrixEntry { column: 0, value: Dyadic::new(0, matrix.fractional_bits) };
        let mut entries = [empty, empty, empty];
        let mut len: usize = 0;
        let mut diagonal_mantissa: u64 = matrix.margin_mantissa;

        if row > 0 {
            let value: i64 = matrix.edge_mantissa(row - 1);
            diagonal_mantissa = diagonal_mantissa + (-value) as u64;
            entries[len] =
            MatrixEntry { column: row - 1, value: Dyadic::new(value, matrix.fractional_bits) };
            len = len + 1;
            proof {
                matrix::lemma_symmetric_coefficient(model, row as int, row - 1);
                assert(edge.offset == problem::magnitude((row - 1) - row));
            }
        }
        if row + 1 < matrix.dimension {
            let value: i64 = matrix.edge_mantissa(row);
            diagonal_mantissa = diagonal_mantissa + (-value) as u64;
        }
        entries[len] =
        MatrixEntry {
            column: row,
            value: Dyadic::new(diagonal_mantissa as i64, matrix.fractional_bits),
        };
        len = len + 1;

        if row + 1 < matrix.dimension {
            entries[len] =
            MatrixEntry {
                column: row + 1,
                value: Dyadic::new(matrix.edge_mantissa(row), matrix.fractional_bits),
            };
            len = len + 1;
            proof {
                matrix::lemma_symmetric_coefficient(model, row as int, row + 1);
                assert(edge.offset == problem::magnitude((row + 1) - row));
            }
        }
        let result = TridiagonalMatrixRow { entries, front: 0, back: len as u8 };
        proof {
            assert(diagonal_mantissa == model.coefficient(row as int, row as int));
            let listed = result.remaining();
            assert forall|column: int|
                0 <= column < model.dimension() && #[trigger] model.structural(
                    row as int,
                    column,
                ) implies exists|p: int|
                0 <= p < listed.len() && (#[trigger] listed[p]).column == column by {
                assert(problem::magnitude(column - row) <= 1);
                if column < row {
                    assert(listed[0].column == column);
                } else if column == row {
                    assert(listed[if row > 0 {
                        1int
                    } else {
                        0
                    }].column == column);
                } else {
                    assert(listed[if row > 0 {
                        2int
                    } else {
                        1
                    }].column == column);
                }
            }
        }
        result
    }

    fn next(&mut self) -> (entry: Option<MatrixEntry>)
        requires
            old(self).wf(),
        ensures
            final(self).wf(),
            pops_front(old(self).remaining(), entry, final(self).remaining()),
    {
        if self.front == self.back {
            return None;
        }
        let entry = self.entries[self.front as usize];
        self.front = self.front + 1;
        assert(self.remaining() =~= old(self).remaining().skip(1));
        Some(entry)
    }

    fn next_back(&mut self) -> (entry: Option<MatrixEntry>)
        requires
            old(self).wf(),
        ensures
            final(self).wf(),
            pops_back(old(self).remaining(), entry, final(self).remaining()),
    {
        if self.front == self.back {
            return None;
        }
        self.back = self.back - 1;
        assert(self.remaining() =~= old(self).remaining().drop_last());
        Some(self.entries[self.back as usize])
    }
}

/// Taking the first item of a sequence, or nothing from an empty one.
pub open spec fn pops_front<T>(before: Seq<T>, item: Option<T>, after: Seq<T>) -> bool {
    if before.len() == 0 {
        item is None && after == before
    } else {
        item == Some(before[0]) && after == before.skip(1)
    }
}

/// Taking the last item of a sequence, or nothing from an empty one.
pub open spec fn pops_back<T>(before: Seq<T>, item: Option<T>, after: Seq<T>) -> bool {
    if before.len() == 0 {
        item is None && after == before
    } else {
        item == Some(before.last()) && after == before.drop_last()
    }
}

#[derive(Clone, Debug)]
struct DiaMatrixRow<'a> {
    matrix: &'a PeriodicSymmetricDiaLaplacian,
    row: usize,
    incoming_count: usize,
    diagonal_mantissa: i64,
    front: usize,
    back: usize,
}

impl<'a> DiaMatrixRow<'a> {
    /// The entry at a position of the whole row: incoming edges from the
    /// farthest to the nearest, the diagonal, outgoing edges.
    spec fn entry(&self, position: int) -> MatrixEntry {
        let edges = self.matrix.model().edges();
        let (column, mantissa) = if position < self.incoming_count {
            let edge = edges[self.incoming_count - 1 - position];
            (self.row - edge.offset, edge.value(self.row - edge.offset))
        } else if position == self.incoming_count {
            (self.row as int, self.diagonal_mantissa as int)
        } else {
            let edge = edges[position - self.incoming_count - 1];
            (self.row + edge.offset, edge.value(self.row as int))
        };
        MatrixEntry {
            column: column as usize,
            value: Dyadic {
                mantissa: mantissa as i64,
                fractional_bits: self.matrix.fractional_bits,
            },
        }
    }

    spec fn remaining(&self) -> Seq<MatrixEntry> {
        Seq::new((self.back - self.front) as nat, |p: int| self.entry(self.front + p))
    }

    spec fn wf(&self) -> bool {
        let edges = self.matrix.model().edges();
        &&& self.matrix.model().wf()
        &&& self.matrix.tables_fit()
        &&& self.row < self.matrix.dimension
        &&& self.incoming_count <= edges.len()
        &&& forall|k: int|
            0 <= k < self.incoming_count ==> (#[trigger] edges[k]).offset <= self.row
        &&& self.front <= self.back
        &&& self.back <= self.incoming_count + 1 + edges.len()
        &&& forall|k: int|
            0 <= k < self.back - self.incoming_count - 1 ==> self.row + (
            #[trigger] edges[k]).offset < self.matrix.dimension
    }

    fn new(matrix: &'a PeriodicSymmetricDiaLaplacian, row: usize) -> (entries: DiaMatrixRow<'a>)
        requires
            matrix.model().wf(),
            matrix.tables_fit(),
            row < matrix.dimension,
        ensures
            entries.wf(),
            matrix::lists_row(matrix.model(), row as int, entries.remaining()),
    {
        let ghost model = matrix.model();
        let ghost edges = model.edges();
        let ghost dimension = model.dimension();
        let ghost term = |k: int| edges[k].incident(dimension, row as int);
        let mut incoming_count: usize = 0;
        let mut outgoing_count: usize = 0;
        let mut diagonal_mantissa: u64 = matrix.diagonal_shift_mantissa;
        let mut index: usize = 0;
        while index < matrix.edges.len()
            invariant
                matrix.model().wf(),
                matrix.tables_fit(),
                model == matrix.model(),
                edges == model.edges(),
                dimension == model.dimension(),
                term == (|k: int| edges[k].incident(dimension, row as int)),
                row < matrix.dimension,
                index <= edges.len(),
                edges.len() == matrix.edges@.len(),
                incoming_count <= index,
                outgoing_count <= index,
                forall|k: int| 0 <= k < incoming_count ==> (#[trigger] edges[k]).offset <= row,
                forall|k: int| incoming_count <= k < index ==> (#[trigger] edges[k]).offset > row,
                forall|k: int|
                    0 <= k < outgoing_count ==> row + (#[trigger] edges[k]).offset < dimension,
                forall|k: int|
                    outgoing_count <= k < index ==> row + (#[trigger] edges[k]).offset
                        >= dimension,
                diagonal_mantissa == matrix.diagonal_shift_mantissa + sums::sum_below(
                    index as nat,
                    term,
                ),
                sums::sum_below(index as nat, term) <= matrix::incident_weight_bound(
                    edges,
                    index as nat,
                ),
            decreases edges.len() - index,
        {
            let offset: usize = matrix.edges[index].positive_offset;
            let ghost before = diagonal_mantissa;
            proof {
                assert(edges[index as int].offset == offset);
                matrix::lemma_incident_weight_bound_monotonic(
                    edges,
                    (index + 1) as nat,
                    edges.len(),
                );
                matrix::lemma_incident_weight(edges, dimension, row as int, (index + 1) as nat);
            }
            if offset <= row {
                let value: i64 = matrix.edge_mantissa(index, row - offset);
                diagonal_mantissa = diagonal_mantissa + (-value) as u64;
                assert(incoming_count == index) by {
                    if incoming_count < index {
                        assert(edges[incoming_count as int].offset < edges[index as int].offset);
                    }
                }
                incoming_count = index + 1;
            }
            if offset < matrix.dimension - row {
                let value: i64 = matrix.edge_mantissa(index, row);
                diagonal_mantissa = diagonal_mantissa + (-value) as u64;
                assert(outgoing_count == index) by {
                    if outgoing_count < index {
                        assert(edges[outgoing_count as int].offset < edges[index as int].offset);
                    }
                }
                outgoing_count = index + 1;
            }
            assert(diagonal_mantissa - before == term(index as int));
            index = index + 1;
        }
        let result = DiaMatrixRow {
            matrix,
            row,
            incoming_count,
            diagonal_mantissa: diagonal_mantissa as i64,
            front: 0,
            back: incoming_count + 1 + outgoing_count,
        };
        proof {
            sums::lemma_sum_equal(
                edges.len(),
                term,
                |k: int| model.edges()[k].incident(model.dimension(), row as int),
            );
            assert(diagonal_mantissa == model.coefficient(row as int, row as int));
            result.lemma_lists_row();
        }
        result
    }

    proof fn lemma_lists_row(&self)
        requires
            self.wf(),
            self.front == 0,
            self.diagonal_mantissa == self.matrix.model().coefficient(
                self.row as int,
                self.row as int,
            ),
            self.incoming_count < self.back,
            forall|k: int|
                self.incoming_count <= k < self.matrix.model().edges().len() ==> (
                #[trigger] self.matrix.model().edges()[k]).offset > self.row,
            forall|k: int|
                self.back - self.incoming_count - 1 <= k < self.matrix.model().edges().len()
                    ==> self.row + (#[trigger] self.matrix.model().edges()[k]).offset
                    >= self.matrix.dimension,
        ensures
            matrix::lists_row(self.matrix.model(), self.row as int, self.remaining()),
    {
        let model = self.matrix.model();
        let edges = model.edges();
        let row = self.row as int;
        let incoming = self.incoming_count as int;
        let listed = self.remaining();
        assert forall|p: int| 0 <= p < listed.len() implies {
            let entry = #[trigger] listed[p];
            &&& entry.column < model.dimension()
            &&& model.structural(row, entry.column as int)
            &&& entry.value.mantissa == model.coefficient(row, entry.column as int)
            &&& entry.value.fractional_bits == model.fractional_bits()
        } by {
            assert(listed[p] == self.entry(p));
            if p < incoming {
                let edge = edges[incoming - 1 - p];
                let column = row - edge.offset;
                matrix::lemma_symmetric_coefficient(model, row, column);
                assert(edge.offset == problem::magnitude(column - row));
                assert(model.structural(row, column));
            } else if p > incoming {
                let edge = edges[p - incoming - 1];
                let column = row + edge.offset;
                matrix::lemma_symmetric_coefficient(model, row, column);
                assert(edge.offset == problem::magnitude(column - row));
                assert(model.structural(row, column));
            }
        }
        assert forall|p: int, q: int| 0 <= p < q < listed.len() implies (
        #[trigger] listed[p]).column < (#[trigger] listed[q]).column by {
            assert(listed[p] == self.entry(p));
            assert(listed[q] == self.entry(q));
            if q < incoming {
                assert(edges[incoming - 1 - q].offset < edges[incoming - 1 - p].offset);
            } else if p > incoming {
                assert(edges[p - incoming - 1].offset < edges[q - incoming - 1].offset);
            }
            if p < incoming {
                assert(edges[incoming - 1 - p].offset > 0);
            }
            if q > incoming {
                assert(edges[q - incoming - 1].offset > 0);
            }
        }
        assert forall|column: int|
            0 <= column < model.dimension() && #[trigger] model.structural(
                row,
                column,
            ) implies exists|p: int|
            0 <= p < listed.len() && (#[trigger] listed[p]).column == column by {
            if column == row {
                assert(listed[incoming] == self.entry(incoming));
                assert(listed[incoming].column == column);
            } else {
                let k = choose|k: int|
                    0 <= k < edges.len() && (#[trigger] edges[k]).offset == problem::magnitude(
                        column - row,
                    );
                let p = if column < row {
                    incoming - 1 - k
                } else {
                    incoming + 1 + k
                };
                assert(listed[p] == self.entry(p));
                assert(listed[p].column == column);
            }
        }
    }

    fn entry_at(&self, position: usize) -> (entry: MatrixEntry)
        requires
            self.wf(),
            position < self.back,
        ensures
            entry == self.entry(position as int),
    {
        let ghost edges = self.matrix.model().edges();
        if position < self.incoming_count {
            let edge: usize = self.incoming_count - 1 - position;
            assert(edges[edge as int].offset <= self.row);
            let column: usize = self.row - self.matrix.edges[edge].positive_offset;
            return MatrixEntry {
                column,
                value: Dyadic::new(
                    self.matrix.edge_mantissa(edge, column),
                    self.matrix.fractional_bits,
                ),
            };
        }
        if position == self.incoming_count {
            return MatrixEntry {
                column: self.row,
                value: Dyadic::new(self.diagonal_mantissa, self.matrix.fractional_bits),
            };
        }
        let edge: usize = position - self.incoming_count - 1;
        assert(self.row + edges[edge as int].offset < self.matrix.dimension);
        MatrixEntry {
            column: self.row + self.matrix.edges[edge].positive_offset,
            value: Dyadic::new(
                self.matrix.edge_mantissa(edge, self.row),
                self.matrix.fractional_bits,
            ),
        }
    }

    fn next(&mut self) -> (entry: Option<MatrixEntry>)
        requires
            old(self).wf(),
        ensures
            final(self).wf(),
            pops_front(old(self).remaining(), entry, final(self).remaining()),
    {
        if self.front == self.back {
            return None;
        }
        let entry = self.entry_at(self.front);
        self.front = self.front + 1;
        proof {
            assert forall|p: int| self.entry(p) == old(self).entry(p) by {}
            assert(self.remaining() =~= old(self).remaining().skip(1));
        }
        Some(entry)
    }

    fn next_back(&mut self) -> (entry: Option<MatrixEntry>)
        requires
            old(self).wf(),
        ensures
            final(self).wf(),
            pops_back(old(self).remaining(), entry, final(self).remaining()),
    {
        if self.front == self.back {
            return None;
        }
        let entry = self.entry_at(self.back - 1);
        self.back = self.back - 1;
        proof {
            assert forall|p: int| self.entry(p) == old(self).entry(p) by {}
            assert(self.remaining() =~= old(self).remaining().drop_last());
        }
        Some(entry)
    }
}

#[derive(Clone, Debug)]
struct NonsymmetricMatrixRow<'a> {
    matrix: &'a PeriodicNonsymmetricRowSparse,
    row: usize,
    pattern: usize,
    pattern_start: usize,
    valid_start: usize,
    diagonal_position: usize,
    front: usize,
    back: usize,
}

impl<'a> NonsymmetricMatrixRow<'a> {
    /// The table index of an off-diagonal position of the whole row.
    spec fn table_index(&self, position: int) -> int {
        self.pattern_start + self.valid_start + if position < self.diagonal_position {
            position
        } else {
            position - 1
        }
    }

    spec fn entry(&self, position: int) -> MatrixEntry {
        let (column, mantissa) = if position == self.diagonal_position {
            (self.row as int, self.matrix.diagonal_mantissas@[self.pattern as int])
        } else {
            let index = self.table_index(position);
            (
                self.row + self.matrix.signed_offsets@[index],
                self.matrix.off_diagonal_mantissas@[index],
            )
        };
        MatrixEntry {
            column: column as usize,
            value: Dyadic { mantissa, fractional_bits: self.matrix.fractional_bits },
        }
    }

    spec fn remaining(&self) -> Seq<MatrixEntry> {
        Seq::new((self.back - self.front) as nat, |p: int| self.entry(self.front + p))
    }

    spec fn wf(&self) -> bool {
        let width = self.matrix.off_diagonals_per_pattern;
        let offsets = self.matrix.signed_offsets@;
        &&& self.matrix.model().wf()
        &&& self.row < self.matrix.dimension
        &&& self.pattern == self.row % self.matrix.diagonal_mantissas@.len() as usize
        &&& self.pattern_start == self.pattern * width
        &&& self.pattern_start + width <= offsets.len()
        &&& self.front <= self.back
        &&& self.diagonal_position <= width
        &&& self.valid_start + self.back <= width + 1
        &&& forall|k: int|
            self.valid_start <= k && (k < self.valid_start + self.diagonal_position || k
                < self.valid_start + self.back - 1) && k < width ==> 0 <= self.row
                + #[trigger] offsets[self.pattern_start + k] < self.matrix.dimension
        &&& self.valid_start + self.diagonal_position <= width
    }

    fn new(matrix: &'a PeriodicNonsymmetricRowSparse, row: usize) -> (entries:
        NonsymmetricMatrixRow<'a>)
        requires
            matrix.model().wf(),
            row < matrix.dimension,
        ensures
            entries.wf(),
            matrix::lists_row(matrix.model(), row as int, entries.remaining()),
    {
        let pattern: usize = row % matrix.period();
        let ghost width = matrix.off_diagonals_per_pattern as int;
        proof {
            lemma_pattern_range(pattern as int, matrix.diagonal_mantissas@.len() as int, width);
            assert(matrix.signed_offsets.len() == matrix.signed_offsets@.len());
        }
        let pattern_start: usize = pattern * matrix.off_diagonals_per_pattern;
        let minimum_offset: i64 = -(row as i64);
        let maximum_offset: i64 = (matrix.dimension - row) as i64;
        let valid_start: usize = matrix.offsets_below(pattern, minimum_offset);
        let valid_end: usize = matrix.offsets_below(pattern, maximum_offset);
        let negative: usize = matrix.offsets_below(pattern, 0);
        let ghost offsets = matrix.signed_offsets@;
        proof {
            // The three counts are ordered as their bounds are.
            if valid_start > negative {
                assert(offsets[pattern * width + negative] < minimum_offset);
            }
            if negative > valid_end {
                assert(offsets[pattern * width + valid_end] < 0);
            }
        }
        let result = NonsymmetricMatrixRow {
            matrix,
            row,
            pattern,
            pattern_start,
            valid_start,
            diagonal_position: negative - valid_start,
            front: 0,
            back: valid_end - valid_start + 1,
        };
        proof {
            assert(pattern_start == pattern * width);
            result.lemma_lists_row(valid_end as int);
        }
        result
    }

    /// Whether a whole row is at hand: the offsets before `valid_start` and from
    /// `valid_end` on leave the matrix, and those before the diagonal position
    /// are the negative ones.
    spec fn whole(&self, valid_end: int) -> bool {
        let width = self.matrix.off_diagonals_per_pattern;
        let offsets = self.matrix.signed_offsets@;
        &&& self.wf()
        &&& self.front == 0
        &&& self.back == valid_end - self.valid_start + 1
        &&& self.valid_start + self.diagonal_position <= valid_end <= width
        &&& forall|k: int|
            0 <= k < self.valid_start ==> self.row + #[trigger] offsets[self.pattern_start + k] < 0
        &&& forall|k: int|
            self.valid_start <= k < self.valid_start + self.diagonal_position
                ==> #[trigger] offsets[self.pattern_start + k] < 0
        &&& forall|k: int|
            self.valid_start + self.diagonal_position <= k < width
                ==> #[trigger] offsets[self.pattern_start + k] >= 0
        &&& forall|k: int|
            valid_end <= k < width ==> self.row + #[trigger] offsets[self.pattern_start + k]
                >= self.matrix.dimension
    }

    proof fn lemma_lists_row(&self, valid_end: int)
        requires
            self.whole(valid_end),
        ensures
            matrix::lists_row(self.matrix.model(), self.row as int, self.remaining()),
    {
        self.lemma_lists_coefficients(valid_end);
        self.lemma_lists_in_order(valid_end);
        self.lemma_lists_structure(valid_end);
    }

    proof fn lemma_lists_coefficients(&self, valid_end: int)
        requires
            self.whole(valid_end),
        ensures
            ({
                let model = self.matrix.model();
                let row = self.row as int;
                let listed = self.remaining();
                forall|p: int|
                    0 <= p < listed.len() ==> {
                        let entry = #[trigger] listed[p];
                        &&& entry.column < model.dimension()
                        &&& model.structural(row, entry.column as int)
                        &&& entry.value.mantissa == model.coefficient(row, entry.column as int)
                        &&& entry.value.fractional_bits == model.fractional_bits()
                    }
            }),
    {
        let model = self.matrix.model();
        let row = self.row as int;
        let width = self.matrix.off_diagonals_per_pattern as int;
        let offsets = self.matrix.signed_offsets@;
        let values = self.matrix.off_diagonal_mantissas@;
        let start = self.pattern_start as int;
        let valid_start = self.valid_start as int;
        let diagonal = self.diagonal_position as int;
        let listed = self.remaining();
        assert(model.pattern(row) == self.pattern);
        assert(start == self.pattern * width);
        assert forall|p: int| 0 <= p < listed.len() implies {
            let entry = #[trigger] listed[p];
            &&& entry.column < model.dimension()
            &&& model.structural(row, entry.column as int)
            &&& entry.value.mantissa == model.coefficient(row, entry.column as int)
            &&& entry.value.fractional_bits == model.fractional_bits()
        } by {
            assert(listed[p] == self.entry(p));
            if p != diagonal {
                let k = valid_start + if p < diagonal {
                    p
                } else {
                    p - 1
                };
                assert(0 <= row + offsets[start + k] < self.matrix.dimension);
                let column = row + offsets[start + k];
                assert(offsets[self.pattern * width + k] != 0);
                assert(offsets[model.pattern(row) * width + k] == column - row);
                assert(model.structural(row, column));
                let term = |l: int|
                    if offsets[start + l] == column - row {
                        values[start + l] as int
                    } else {
                        0
                    };
                assert forall|l: int| 0 <= l < width && l != k implies #[trigger] term(l) == 0 by {
                    if l < k {
                        assert(offsets[self.pattern * width + l] < offsets[self.pattern * width
                            + k]);
                    } else {
                        assert(offsets[self.pattern * width + k] < offsets[self.pattern * width
                            + l]);
                    }
                }
                sums::lemma_sum_single(width as nat, term, k);
                let base = model.pattern(row) * width;
                sums::lemma_sum_equal(
                    width as nat,
                    term,
                    |l: int|
                        if offsets[base + l] == column - row {
                            values[base + l] as int
                        } else {
                            0
                        },
                );
            }
        }
    }

    proof fn lemma_lists_in_order(&self, valid_end: int)
        requires
            self.whole(valid_end),
        ensures
            ({
                let listed = self.remaining();
                forall|p: int, q: int|
                    0 <= p < q < listed.len() ==> (#[trigger] listed[p]).column < (
                    #[trigger] listed[q]).column
            }),
    {
        let row = self.row as int;
        let width = self.matrix.off_diagonals_per_pattern as int;
        let offsets = self.matrix.signed_offsets@;
        let start = self.pattern_start as int;
        let valid_start = self.valid_start as int;
        let diagonal = self.diagonal_position as int;
        let listed = self.remaining();
        assert(start == self.pattern * width);
        assert forall|p: int, q: int| 0 <= p < q < listed.len() implies (
        #[trigger] listed[p]).column < (#[trigger] listed[q]).column by {
            assert(listed[p] == self.entry(p));
            assert(listed[q] == self.entry(q));
            let k = valid_start + if p < diagonal {
                p
            } else {
                p - 1
            };
            let l = valid_start + if q < diagonal {
                q
            } else {
                q - 1
            };
            if p != diagonal {
                assert(0 <= row + offsets[start + k] < self.matrix.dimension);
                assert(offsets[self.pattern * width + k] != 0);
            }
            if q != diagonal {
                assert(0 <= row + offsets[start + l] < self.matrix.dimension);
                assert(offsets[self.pattern * width + l] != 0);
            }
            if p != diagonal && q != diagonal {
                assert(offsets[self.pattern * width + k] < offsets[self.pattern * width + l]);
            }
        }
    }

    proof fn lemma_lists_structure(&self, valid_end: int)
        requires
            self.whole(valid_end),
        ensures
            ({
                let model = self.matrix.model();
                let row = self.row as int;
                let listed = self.remaining();
                forall|column: int|
                    0 <= column < model.dimension() && #[trigger] model.structural(row, column)
                        ==> exists|p: int|
                        0 <= p < listed.len() && (#[trigger] listed[p]).column == column
            }),
    {
        let model = self.matrix.model();
        let row = self.row as int;
        let width = self.matrix.off_diagonals_per_pattern as int;
        let offsets = self.matrix.signed_offsets@;
        let start = self.pattern_start as int;
        let valid_start = self.valid_start as int;
        let diagonal = self.diagonal_position as int;
        let listed = self.remaining();
        assert(model.pattern(row) == self.pattern);
        assert(start == self.pattern * width);
        assert forall|column: int|
            0 <= column < model.dimension() && #[trigger] model.structural(
                row,
                column,
            ) implies exists|p: int|
            0 <= p < listed.len() && (#[trigger] listed[p]).column == column by {
            if column == row {
                assert(listed[diagonal] == self.entry(diagonal));
                assert(listed[diagonal].column == column);
            } else {
                let k = choose|k: int|
                    0 <= k < width && #[trigger] offsets[model.pattern(row) * width + k] == column
                        - row;
                assert(offsets[start + k] == column - row);
                let p = if k < valid_start + diagonal {
                    k - valid_start
                } else {
                    k - valid_start + 1
                };
                assert(valid_start <= k < valid_end);
                assert(listed[p] == self.entry(p));
                assert(listed[p].column == column);
            }
        }
    }

    fn entry_at(&self, position: usize) -> (entry: MatrixEntry)
        requires
            self.wf(),
            position < self.back,
        ensures
            entry == self.entry(position as int),
    {
        if position == self.diagonal_position {
            return MatrixEntry {
                column: self.row,
                value: Dyadic::new(
                    self.matrix.diagonal_mantissas[self.pattern],
                    self.matrix.fractional_bits,
                ),
            };
        }
        let offset_position: usize = if position < self.diagonal_position {
            self.valid_start + position
        } else {
            self.valid_start + position - 1
        };
        assert(0 <= self.row + self.matrix.signed_offsets@[self.pattern_start + offset_position]
            < self.matrix.dimension);
        assert(self.matrix.signed_offsets.len() == self.matrix.signed_offsets@.len());
        let table_index: usize = self.pattern_start + offset_position;
        let column: i64 = self.row as i64 + self.matrix.signed_offsets[table_index] as i64;
        MatrixEntry {
            column: column as usize,
            value: Dyadic::new(
                self.matrix.off_diagonal_mantissas[table_index],
                self.matrix.fractional_bits,
            ),
        }
    }

    fn next(&mut self) -> (entry: Option<MatrixEntry>)
        requires
            old(self).wf(),
        ensures
            final(self).wf(),
            pops_front(old(self).remaining(), entry, final(self).remaining()),
    {
        if self.front == self.back {
            return None;
        }
        let entry = self.entry_at(self.front);
        self.front = self.front + 1;
        proof {
            assert forall|p: int| self.entry(p) == old(self).entry(p) by {}
            assert(self.remaining() =~= old(self).remaining().skip(1));
        }
        Some(entry)
    }

    fn next_back(&mut self) -> (entry: Option<MatrixEntry>)
        requires
            old(self).wf(),
        ensures
            final(self).wf(),
            pops_back(old(self).remaining(), entry, final(self).remaining()),
    {
        if self.front == self.back {
            return None;
        }
        let entry = self.entry_at(self.back - 1);
        self.back = self.back - 1;
        proof {
            assert forall|p: int| self.entry(p) == old(self).entry(p) by {}
            assert(self.remaining() =~= old(self).remaining().drop_last());
        }
        Some(entry)
    }
}

/// Allocation-free, sorted row iterator for any registered compiled family.
#[derive(Clone, Debug)]
pub struct MatrixRow<'a> {
    inner: MatrixRowInner<'a>,
}

#[derive(Clone, Debug)]
enum MatrixRowInner<'a> {
    Tridiagonal(TridiagonalMatrixRow),
    SymmetricDiaLaplacian(DiaMatrixRow<'a>),
    NonsymmetricRowSparse(NonsymmetricMatrixRow<'a>),
}

impl<'a> View for MatrixRow<'a> {
    type V = Seq<MatrixEntry>;

    /// The entries not yet taken from either end.
    closed spec fn view(&self) -> Seq<MatrixEntry> {
        match self.inner {
            MatrixRowInner::Tridiagonal(row) => row.remaining(),
            MatrixRowInner::SymmetricDiaLaplacian(row) => row.remaining(),
            MatrixRowInner::NonsymmetricRowSparse(row) => row.remaining(),
        }
    }
}

impl<'a> MatrixRow<'a> {
    pub closed spec fn wf(&self) -> bool {
        match self.inner {
            MatrixRowInner::Tridiagonal(row) => row.wf(),
            MatrixRowInner::SymmetricDiaLaplacian(row) => row.wf(),
            MatrixRowInner::NonsymmetricRowSparse(row) => row.wf(),
        }
    }

    /// Number of entries not yet taken.
    pub fn len(&self) -> (len: usize)
        requires
            self.wf(),
        ensures
            len == self@.len(),
    {
        match &self.inner {
            MatrixRowInner::Tridiagonal(row) => (row.back - row.front) as usize,
            MatrixRowInner::SymmetricDiaLaplacian(row) => row.back - row.front,
            MatrixRowInner::NonsymmetricRowSparse(row) => row.back - row.front,
        }
    }

    /// Takes the entry with the smallest remaining column.
    pub fn next(&mut self) -> (entry: Option<MatrixEntry>)
        requires
            old(self).wf(),
        ensures
            final(self).wf(),
            pops_front(old(self)@, entry, final(self)@),
    {
        match &mut self.inner {
            MatrixRowInner::Tridiagonal(row) => row.next(),
            MatrixRowInner::SymmetricDiaLaplacian(row) => row.next(),
            MatrixRowInner::NonsymmetricRowSparse(row) => row.next(),
        }
    }

    /// Takes the entry with the largest remaining column.
    pub fn next_back(&mut self) -> (entry: Option<MatrixEntry>)
        requires
            old(self).wf(),
        ensures
            final(self).wf(),
            pops_back(old(self)@, entry, final(self)@),
    {
        match &mut self.inner {
            MatrixRowInner::Tridiagonal(row) => row.next_back(),
            MatrixRowInner::SymmetricDiaLaplacian(row) => row.next_back(),
            MatrixRowInner::NonsymmetricRowSparse(row) => row.next_back(),
        }
    }
}

} // verus!
