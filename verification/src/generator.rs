//! Compilation of a finalized problem into bounded periodic tables.

use vstd::arithmetic::power2::*;
use vstd::prelude::*;

use crate::bytes;
use crate::compiled;
use crate::compiled::{
    CompiledMatrixFamily, DiaEdgeDescriptor, PeriodicNonsymmetricRowSparse,
    PeriodicSymmetricDiaLaplacian, PeriodicSymmetricTridiagonal,
};
use crate::matrix;
use crate::matrix::{EdgeModel, MatrixModel};
use crate::powers;
use crate::problem;
use crate::problem::{
    BoundaryRule, DiagonalConstruction, Dyadic, MatrixRecipe, MatrixSpec, OffDiagonalValues,
    ProblemError, ProblemModel, RhsSpec, SymmetricDiaEdge,
};
use crate::randomness;
use crate::randomness::{derive_labelled, derive_subseed, InstanceSeed};
use crate::sampling;
use crate::sums;
use crate::text;

verus! {

pub const MATRIX_VALUES_LABEL: &'static str =
    "matrix/seeded-symmetric-tridiagonal-v1/off-diagonal-values";

pub const DIA_MATRIX_VALUES_LABEL: &'static str =
    "matrix/seeded-symmetric-dia-laplacian-v1/edge-values";

pub const NONSYMMETRIC_STRUCTURE_LABEL: &'static str =
    "matrix/seeded-nonsymmetric-row-sparse-v1/structure";

pub const NONSYMMETRIC_OFF_DIAGONAL_VALUES_LABEL: &'static str =
    "matrix/seeded-nonsymmetric-row-sparse-v1/off-diagonal-values";

pub const NONSYMMETRIC_DIAGONAL_VALUES_LABEL: &'static str =
    "matrix/seeded-nonsymmetric-row-sparse-v1/diagonal-values";

pub const RHS_VALUES_LABEL: &'static str = "rhs/seeded-periodic-dyadic-v1/values";

pub const EDGE_LABEL_PREFIX: &'static str = "edge-diagonal/";

pub const EDGE_LABEL_OFFSET: &'static str = "/offset/";

/// The seed that a label names under an instance seed.
pub open spec fn labelled(seed: Seq<u8>, label: &str) -> Seq<u8> {
    randomness::subseed_bytes(seed, vstd::utf8::encode_utf8(label@))
}

/// The label of one edge diagonal's value stream.
pub open spec fn edge_label(index: nat, offset: nat) -> Seq<u8> {
    vstd::utf8::encode_utf8(EDGE_LABEL_PREFIX@) + text::decimal(index) + vstd::utf8::encode_utf8(
        EDGE_LABEL_OFFSET@,
    ) + text::decimal(offset)
}

/// The tables of the first `count` edge diagonals.
pub open spec fn compiled_edges(
    family_seed: Seq<u8>,
    edges: Seq<SymmetricDiaEdge>,
    count: nat,
) -> Option<Seq<EdgeModel>>
    decreases count,
{
    if count == 0 {
        Some(Seq::empty())
    } else {
        match compiled_edges(family_seed, edges, (count - 1) as nat) {
            None => None,
            Some(before) => {
                let edge = edges[count - 1];
                match sampling::negative_table(
                    randomness::subseed_bytes(
                        family_seed,
                        edge_label((count - 1) as nat, edge.positive_offset as nat),
                    ),
                    pow2(edge.period_bits as nat),
                    edge.minimum_weight_mantissa as nat,
                    edge.maximum_weight_mantissa as nat,
                ) {
                    None => None,
                    Some(table) => Some(
                        before.push(EdgeModel { offset: edge.positive_offset as nat, table }),
                    ),
                }
            },
        }
    }
}

/// The number of row patterns of a row-sparse matrix: as many as requested,
/// but no more than the padded dimension.
pub open spec fn row_patterns(row_pattern_bits: u8, dimension: nat) -> nat {
    if pow2(row_pattern_bits as nat) < powers::padded(dimension) {
        pow2(row_pattern_bits as nat)
    } else {
        powers::padded(dimension)
    }
}

/// The matrix that a recipe and a seed determine; nothing if the seed's word
/// stream is too short.
pub open spec fn compiled_matrix(recipe: MatrixRecipe, seed: Seq<u8>) -> Option<MatrixModel> {
    match recipe {
        MatrixRecipe::Tridiagonal {
            dimension,
            period_bits,
            fractional_bits,
            minimum,
            maximum,
            margin,
            ..
        } => match sampling::negative_table(
            labelled(seed, MATRIX_VALUES_LABEL),
            pow2(period_bits as nat),
            minimum as nat,
            maximum as nat,
        ) {
            None => None,
            Some(table) => Some(
                MatrixModel::Tridiagonal {
                    dimension: dimension as nat,
                    fractional_bits,
                    margin: margin as nat,
                    table,
                },
            ),
        },
        MatrixRecipe::DiaLaplacian { dimension, fractional_bits, shift, edges, .. } => {
            match compiled_edges(labelled(seed, DIA_MATRIX_VALUES_LABEL), edges, edges.len()) {
                None => None,
                Some(tables) => Some(
                    MatrixModel::DiaLaplacian {
                        dimension: dimension as nat,
                        fractional_bits,
                        shift: shift as nat,
                        edges: tables,
                    },
                ),
            }
        },
        MatrixRecipe::RowSparse {
            dimension,
            row_pattern_bits,
            half_bandwidth,
            row_width,
            fractional_bits,
            minimum,
            maximum,
            ..
        } => {
            let period = row_patterns(row_pattern_bits, dimension as nat);
            let width = (row_width - 1) as nat;
            match (
                sampling::patterns(
                    labelled(seed, NONSYMMETRIC_STRUCTURE_LABEL),
                    half_bandwidth as nat,
                    width,
                    period,
                ),
                sampling::nonzero_table(
                    labelled(seed, NONSYMMETRIC_OFF_DIAGONAL_VALUES_LABEL),
                    period * width,
                    minimum as int,
                    maximum as int,
                ),
                sampling::nonzero_table(
                    labelled(seed, NONSYMMETRIC_DIAGONAL_VALUES_LABEL),
                    period,
                    minimum as int,
                    maximum as int,
                ),
            ) {
                (Some((offsets, _)), Some(values), Some(diagonal)) => Some(
                    MatrixModel::RowSparse {
                        dimension: dimension as nat,
                        fractional_bits,
                        width,
                        offsets,
                        values,
                        diagonal,
                    },
                ),
                _ => None,
            }
        },
    }
}

/// What the right-hand side is.
#[verifier::ext_equal]
pub enum RhsModel {
    /// Every entry has one value.
    Constant { dimension: nat, value: Dyadic },
    /// Entry `i` is `table[i mod table.len()]`.
    Periodic { dimension: nat, fractional_bits: u8, table: Seq<i64> },
}

impl RhsModel {
    pub open spec fn dimension(self) -> nat {
        match self {
            RhsModel::Constant { dimension, .. } => dimension,
            RhsModel::Periodic { dimension, .. } => dimension,
        }
    }

    pub open spec fn fractional_bits(self) -> u8 {
        match self {
            RhsModel::Constant { value, .. } => value.fractional_bits,
            RhsModel::Periodic { fractional_bits, .. } => fractional_bits,
        }
    }

    /// The exact mantissa of an entry.
    pub open spec fn mantissa(self, row: int) -> int {
        match self {
            RhsModel::Constant { value, .. } => value.mantissa as int,
            RhsModel::Periodic { table, .. } => table[row % table.len() as int] as int,
        }
    }

    pub open spec fn period(self) -> nat {
        match self {
            RhsModel::Constant { .. } => 1,
            RhsModel::Periodic { table, .. } => table.len(),
        }
    }

    /// The largest magnitude among the entries.
    pub open spec fn maximum_magnitude(self) -> nat {
        match self {
            RhsModel::Constant { value, .. } => problem::magnitude(value.mantissa as int),
            RhsModel::Periodic { table, .. } => matrix::max_magnitude(table),
        }
    }

    pub open spec fn wf(self) -> bool {
        &&& 2 <= self.dimension() <= problem::MAX_DIMENSION
        &&& self.fractional_bits() <= problem::MAX_FRACTIONAL_BITS
        &&& match self {
            RhsModel::Constant { value, .. } => problem::magnitude(value.mantissa as int)
                <= problem::MAX_EXACT_BINARY64_MANTISSA,
            RhsModel::Periodic { table, .. } => {
                &&& matrix::is_period(table.len())
                &&& forall|i: int|
                    0 <= i < table.len() ==> problem::magnitude(#[trigger] table[i] as int)
                        <= problem::MAX_EXACT_BINARY64_MANTISSA
            },
        }
    }
}

/// The right-hand side that a recipe, a compiled matrix and a seed determine.
pub open spec fn compiled_rhs(rhs: RhsSpec, matrix: MatrixModel, seed: Seq<u8>) -> Result<
    RhsModel,
    ProblemError,
> {
    match rhs {
        RhsSpec::ManufacturedOnesV1 => if matrix is RowSparse {
            Err(ProblemError::UnsupportedManufacturedRhs)
        } else {
            Ok(
                RhsModel::Constant {
                    dimension: matrix.dimension(),
                    value: Dyadic {
                        mantissa: matrix.margin() as i64,
                        fractional_bits: matrix.fractional_bits(),
                    },
                },
            )
        },
        RhsSpec::SeededPeriodicDyadicV1 {
            period_bits,
            fractional_bits,
            minimum_mantissa,
            maximum_mantissa,
        } => match sampling::plain_table(
            labelled(seed, RHS_VALUES_LABEL),
            pow2(period_bits as nat),
            minimum_mantissa as int,
            maximum_mantissa as int,
        ) {
            None => Err(ProblemError::SeedStreamExhausted),
            Some(table) => Ok(
                RhsModel::Periodic { dimension: matrix.dimension(), fractional_bits, table },
            ),
        },
    }
}

/// How many indices below `limit` leave the remainder `pattern`.
pub open spec fn periodic_count(limit: int, period: int, pattern: int) -> int {
    if pattern >= limit {
        0
    } else {
        1 + (limit - 1 - pattern) / period
    }
}

/// How many rows of a pattern keep an entry at a displacement inside the
/// matrix.
pub open spec fn displaced_count(dimension: int, period: int, pattern: int, offset: int) -> int {
    if offset < 0 {
        periodic_count(dimension, period, pattern) - periodic_count(-offset, period, pattern)
    } else {
        periodic_count(dimension - offset, period, pattern)
    }
}

/// The number of entries of the sparsity pattern.
pub open spec fn structural_count(matrix: MatrixModel) -> int {
    let dimension = matrix.dimension() as int;
    match matrix {
        MatrixModel::RowSparse { width, offsets, diagonal, .. } => {
            let active = if diagonal.len() < dimension {
                diagonal.len()
            } else {
                dimension as nat
            };
            dimension + sums::sum_below(
                active,
                |p: int|
                    sums::sum_below(
                        width,
                        |k: int|
                            displaced_count(
                                dimension,
                                diagonal.len() as int,
                                p,
                                offsets[p * width + k] as int,
                            ),
                    ),
            )
        },
        _ => dimension + sums::sum_below(
            matrix.edges().len(),
            |k: int| 2 * (dimension - matrix.edges()[k].offset),
        ),
    }
}

/// Largest absolute column sum that the tables allow.
pub open spec fn column_sum_bound(matrix: MatrixModel, half_bandwidth: nat) -> nat {
    match matrix {
        MatrixModel::RowSparse { dimension, values, diagonal, .. } => {
            let sources = if dimension - 1 < 2 * half_bandwidth {
                (dimension - 1) as nat
            } else {
                2 * half_bandwidth
            };
            matrix::max_magnitude(values) * sources + matrix::max_magnitude(diagonal)
        },
        _ => row_sum_bound(matrix),
    }
}

/// Largest absolute row sum that the tables allow.
pub open spec fn row_sum_bound(matrix: MatrixModel) -> nat {
    match matrix {
        MatrixModel::RowSparse { width, values, diagonal, .. } => matrix::max_magnitude(values)
            * width + matrix::max_magnitude(diagonal),
        _ => 2 * matrix::incident_weight_bound(matrix.edges(), matrix.edges().len())
            + matrix.margin(),
    }
}

/// Largest diagonal magnitude that the tables allow.
pub open spec fn diagonal_bound(matrix: MatrixModel) -> nat {
    match matrix {
        MatrixModel::RowSparse { diagonal, .. } => matrix::max_magnitude(diagonal),
        _ => matrix::incident_weight_bound(matrix.edges(), matrix.edges().len())
            + matrix.margin(),
    }
}

/// The band that a recipe allows for off-diagonal entries.
pub open spec fn recipe_half_bandwidth(recipe: MatrixRecipe) -> nat {
    match recipe {
        MatrixRecipe::Tridiagonal { .. } => 1,
        MatrixRecipe::DiaLaplacian { edges, .. } => edges.last().positive_offset as nat,
        MatrixRecipe::RowSparse { half_bandwidth, .. } => half_bandwidth as nat,
    }
}

/// The refusal to compile a matrix whose certificate does not fit, if any.
pub open spec fn certificate_error(recipe: MatrixRecipe, matrix: MatrixModel) -> Option<
    ProblemError,
> {
    match matrix {
        MatrixModel::Tridiagonal { .. } => None,
        MatrixModel::DiaLaplacian { .. } => if structural_count(matrix) > usize::MAX {
            Some(ProblemError::IntegerOverflow("compiled DIA structural nonzeros"))
        } else {
            None
        },
        MatrixModel::RowSparse { .. } => if structural_count(matrix) > usize::MAX {
            Some(ProblemError::IntegerOverflow("compiled nonsymmetric structural nonzeros"))
        } else if column_sum_bound(matrix, recipe_half_bandwidth(recipe)) > u64::MAX {
            Some(ProblemError::IntegerOverflow("compiled nonsymmetric column-sum bound"))
        } else {
            None
        },
    }
}

/// What a compiled problem is.
#[verifier::ext_equal]
pub struct GeneratedModel {
    pub digest: Seq<u8>,
    pub seed: Seq<u8>,
    pub matrix: MatrixModel,
    pub rhs: RhsModel,
}

/// What compiling a finalized problem gives.
pub open spec fn compiled_problem(problem: ProblemModel) -> Result<GeneratedModel, ProblemError> {
    if let Some(error) = problem.error() {
        Err(error)
    } else {
        let seed = problem.randomness.seed();
        match compiled_matrix(problem.matrix, seed) {
            None => Err(ProblemError::SeedStreamExhausted),
            Some(matrix) => if let Some(error) = certificate_error(problem.matrix, matrix) {
                Err(error)
            } else {
                match compiled_rhs(problem.rhs, matrix, seed) {
                    Err(error) => Err(error),
                    Ok(rhs) => Ok(
                        GeneratedModel {
                            digest: problem::problem_digest(problem),
                            seed,
                            matrix,
                            rhs,
                        },
                    ),
                }
            },
        }
    }
}

/// Reviewed bounds and structural facts derived from the registered generator.
///
/// This object is recomputed while compiling the finalized problem. Boolean
/// fields are certified guarantees: `false` means the family does not establish
/// the property, not that every possible realization must have its mathematical
/// negation.
#[derive(Clone, Copy, Debug, PartialEq, Eq, Structural)]
pub struct GeneratorCertificate {
    pub dimension: usize,
    pub structural_nonzeros: usize,
    pub maximum_nonzeros_per_row: u8,
    pub maximum_half_bandwidth: usize,
    /// Family-defined periodic pattern terms used by one public matrix
    /// evaluation.
    ///
    /// This is the table period for the tridiagonal family and the sum of
    /// active per-offset patterns for the shifted Laplacian family. For
    /// generated sparse rows it is the active row-pattern count times the
    /// requested row width.
    pub matrix_period: usize,
    pub coefficient_fractional_bits: u8,
    pub minimum_off_diagonal_magnitude_mantissa: u64,
    pub maximum_off_diagonal_magnitude_mantissa: u64,
    pub maximum_diagonal_mantissa_bound: u64,
    pub maximum_absolute_row_sum_mantissa_bound: u64,
    pub maximum_absolute_column_sum_mantissa_bound: u64,
    pub strict_diagonal_dominance_margin_mantissa: u64,
    pub rhs_period: usize,
    pub rhs_fractional_bits: u8,
    pub maximum_absolute_rhs_mantissa: u64,
    pub symmetric: bool,
    pub positive_diagonal: bool,
    pub nonpositive_off_diagonal: bool,
    pub strictly_row_diagonally_dominant: bool,
    pub nonsingular_m_matrix: bool,
    pub boundary: BoundaryRule,
}

/// The pattern terms of one public matrix evaluation.
pub open spec fn evaluation_terms(matrix: MatrixModel) -> int {
    match matrix {
        MatrixModel::Tridiagonal { table, .. } => table.len() as int,
        MatrixModel::DiaLaplacian { dimension, edges, .. } => sums::sum_below(
            edges.len(),
            |k: int|
                if edges[k].table.len() < dimension - edges[k].offset {
                    edges[k].table.len() as int
                } else {
                    dimension - edges[k].offset
                },
        ),
        MatrixModel::RowSparse { dimension, width, diagonal, .. } => (if diagonal.len()
            < dimension {
            diagonal.len() as int
        } else {
            dimension as int
        }) * (width + 1),
    }
}

/// Whether every value of a table is positive.
pub open spec fn all_positive(table: Seq<i64>) -> bool {
    forall|i: int| 0 <= i < table.len() ==> #[trigger] table[i] > 0
}

/// Whether every value of a table is negative.
pub open spec fn all_negative(table: Seq<i64>) -> bool {
    forall|i: int| 0 <= i < table.len() ==> #[trigger] table[i] < 0
}

/// The widest row that the family allows.
pub open spec fn row_width_bound(matrix: MatrixModel) -> int {
    match matrix {
        MatrixModel::RowSparse { width, .. } => width as int + 1,
        MatrixModel::Tridiagonal { dimension, .. } => if dimension == 2 {
            2
        } else {
            3
        },
        MatrixModel::DiaLaplacian { edges, .. } => 1 + 2 * edges.len() as int,
    }
}

/// The certificate of a compiled matrix, without its right-hand side.
pub open spec fn certifies_matrix(
    certificate: GeneratorCertificate,
    boundary: BoundaryRule,
    half_bandwidth: nat,
    matrix: MatrixModel,
) -> bool {
    let symmetric = !(matrix is RowSparse);
    &&& certificate.dimension == matrix.dimension()
    &&& certificate.structural_nonzeros == structural_count(matrix)
    &&& certificate.maximum_nonzeros_per_row == row_width_bound(matrix)
    &&& certificate.maximum_half_bandwidth == half_bandwidth
    &&& certificate.matrix_period == evaluation_terms(matrix)
    &&& certificate.coefficient_fractional_bits == matrix.fractional_bits()
    &&& certificate.minimum_off_diagonal_magnitude_mantissa == matrix::min_magnitude(
        matrix::off_diagonal_values(matrix),
    )
    &&& certificate.maximum_off_diagonal_magnitude_mantissa == matrix::max_magnitude(
        matrix::off_diagonal_values(matrix),
    )
    &&& certificate.maximum_diagonal_mantissa_bound == diagonal_bound(matrix)
    &&& certificate.maximum_absolute_row_sum_mantissa_bound == row_sum_bound(matrix)
    &&& certificate.maximum_absolute_column_sum_mantissa_bound == column_sum_bound(
        matrix,
        half_bandwidth,
    )
    &&& certificate.strict_diagonal_dominance_margin_mantissa == matrix.margin()
    &&& certificate.symmetric == symmetric
    &&& certificate.strictly_row_diagonally_dominant == symmetric
    &&& certificate.nonsingular_m_matrix == symmetric
    &&& certificate.boundary == boundary
    &&& match matrix {
        MatrixModel::RowSparse { values, diagonal, .. } => {
            &&& certificate.positive_diagonal == all_positive(diagonal)
            &&& certificate.nonpositive_off_diagonal == all_negative(values)
        },
        _ => certificate.positive_diagonal && certificate.nonpositive_off_diagonal,
    }
}

/// The certificate of a compiled problem.
pub open spec fn certifies(
    certificate: GeneratorCertificate,
    boundary: BoundaryRule,
    half_bandwidth: nat,
    matrix: MatrixModel,
    rhs: RhsModel,
) -> bool {
    &&& certifies_matrix(certificate, boundary, half_bandwidth, matrix)
    &&& certificate.rhs_period == rhs.period()
    &&& certificate.rhs_fractional_bits == rhs.fractional_bits()
    &&& certificate.maximum_absolute_rhs_mantissa == rhs.maximum_magnitude()
}

/// `2^bits` for a validated period.
pub(crate) fn period_length(bits: u8) -> (period: usize)
    requires
        bits <= problem::MAX_PERIOD_BITS,
    ensures
        period == pow2(bits as nat),
        0 < period <= 65536,
{
    proof {
        matrix::lemma_period_length(bits as nat);
    }
    powers::power_of_two(bits as u32)
}

pub(crate) fn table_maximum(table: &Vec<i64>) -> (maximum: u64)
    ensures
        maximum == matrix::max_magnitude(table@),
{
    let mut maximum: u64 = 0;
    let mut index: usize = 0;
    assert(table@.take(0) =~= Seq::<i64>::empty());
    while index < table.len()
        invariant
            index <= table@.len(),
            maximum == matrix::max_magnitude(table@.take(index as int)),
        decreases table@.len() - index,
    {
        assert(table@.take(index + 1).drop_last() =~= table@.take(index as int));
        let magnitude: u64 = problem::unsigned_magnitude(table[index]);
        if magnitude > maximum {
            maximum = magnitude;
        }
        index = index + 1;
    }
    assert(table@.take(index as int) =~= table@);
    maximum
}

fn table_minimum(table: &Vec<i64>) -> (minimum: u64)
    ensures
        minimum == matrix::min_magnitude(table@),
{
    let mut minimum: u64 = 0;
    let mut index: usize = 0;
    assert(table@.take(0) =~= Seq::<i64>::empty());
    while index < table.len()
        invariant
            index <= table@.len(),
            minimum == matrix::min_magnitude(table@.take(index as int)),
        decreases table@.len() - index,
    {
        assert(table@.take(index + 1).drop_last() =~= table@.take(index as int));
        let magnitude: u64 = problem::unsigned_magnitude(table[index]);
        if index == 0 || magnitude < minimum {
            minimum = magnitude;
        }
        index = index + 1;
    }
    assert(table@.take(index as int) =~= table@);
    minimum
}

proof fn lemma_max_magnitude_at_most(table: Seq<i64>, bound: nat)
    requires
        forall|i: int| 0 <= i < table.len() ==> problem::magnitude(#[trigger] table[i] as int) <= bound,
    ensures
        matrix::max_magnitude(table) <= bound,
    decreases table.len(),
{
    if table.len() > 0 {
        let head = table.drop_last();
        assert forall|i: int| 0 <= i < head.len() implies problem::magnitude(#[trigger] head[i] as int)
            <= bound by {
            assert(head[i] == table[i]);
        }
        lemma_max_magnitude_at_most(head, bound);
        assert(problem::magnitude(table[table.len() - 1] as int) <= bound);
    }
}

proof fn lemma_compiled_tridiagonal(recipe: MatrixRecipe, seed: Seq<u8>)
    requires
        recipe is Tridiagonal,
        problem::matrix_error(recipe) is None,
    ensures
        compiled_matrix(recipe, seed) matches Some(model) ==> model.wf()
            && matrix::incident_weight_bound(model.edges(), 1) == 2 * matrix::max_magnitude(
            matrix::off_diagonal_values(model),
        ),
{
    if let MatrixRecipe::Tridiagonal { period_bits, minimum, maximum, .. } = recipe {
        let table_seed = labelled(seed, MATRIX_VALUES_LABEL);
        matrix::lemma_period_length(period_bits as nat);
        sampling::lemma_negative_table(
            table_seed,
            pow2(period_bits as nat),
            minimum as nat,
            maximum as nat,
        );
        if let Some(model) = compiled_matrix(recipe, seed) {
            let table = model.edges()[0].table;
            lemma_max_magnitude_at_most(table, maximum as nat);
            reveal_with_fuel(matrix::incident_weight_bound, 2);
        }
    }
}

fn compile_tridiagonal(
    dimension: u64,
    boundary: BoundaryRule,
    off_diagonal: OffDiagonalValues,
    diagonal: DiagonalConstruction,
    instance_seed: InstanceSeed,
) -> (result: Result<(CompiledMatrixFamily, GeneratorCertificate), ProblemError>)
    requires
        problem::matrix_error(
            (MatrixSpec::SeededSymmetricTridiagonalV1 {
                dimension,
                boundary,
                off_diagonal,
                diagonal,
            })@,
        ) is None,
    ensures
        compiles(
            result,
            (MatrixSpec::SeededSymmetricTridiagonalV1 {
                dimension,
                boundary,
                off_diagonal,
                diagonal,
            })@,
            boundary,
            instance_seed@,
        ),
{
    let OffDiagonalValues::SeededPeriodicNegativeDyadicV1 {
        period_bits,
        fractional_bits,
        minimum_magnitude_mantissa: minimum,
        maximum_magnitude_mantissa: maximum,
    } = off_diagonal;
    let DiagonalConstruction::AbsoluteRowSumPlusMarginV1 { margin_mantissa: margin } = diagonal;
    let ghost recipe = MatrixRecipe::Tridiagonal {
        dimension,
        boundary,
        period_bits,
        fractional_bits,
        minimum,
        maximum,
        margin,
    };
    proof {
        lemma_compiled_tridiagonal(recipe, instance_seed@);
    }
    let period: usize = period_length(period_bits);
    let table_seed = derive_subseed(instance_seed, MATRIX_VALUES_LABEL);
    let mut table: Vec<i64> = Vec::with_capacity(period);
    if !sampling::append_negative_table(&mut table, table_seed, period, minimum, maximum) {
        return Err(ProblemError::SeedStreamExhausted);
    }
    let ghost model = compiled_matrix(recipe, instance_seed@).unwrap();
    assert(table@ =~= matrix::off_diagonal_values(model));
    let maximum_generated: u64 = table_maximum(&table);
    let minimum_generated: u64 = table_minimum(&table);
    let size: usize = dimension as usize;
    proof {
        sampling::lemma_negative_table(
            table_seed@,
            period as nat,
            minimum as nat,
            maximum as nat,
        );
        lemma_max_magnitude_at_most(table@, maximum as nat);
        reveal_with_fuel(sums::sum_below, 2);
    }
    let certificate = GeneratorCertificate {
        dimension: size,
        structural_nonzeros: 3 * size - 2,
        maximum_nonzeros_per_row: if size == 2 {
            2
        } else {
            3
        },
        maximum_half_bandwidth: 1,
        matrix_period: period,
        coefficient_fractional_bits: fractional_bits,
        minimum_off_diagonal_magnitude_mantissa: minimum_generated,
        maximum_off_diagonal_magnitude_mantissa: maximum_generated,
        maximum_diagonal_mantissa_bound: 2 * maximum_generated + margin,
        maximum_absolute_row_sum_mantissa_bound: 4 * maximum_generated + margin,
        maximum_absolute_column_sum_mantissa_bound: 4 * maximum_generated + margin,
        strict_diagonal_dominance_margin_mantissa: margin,
        rhs_period: 0,
        rhs_fractional_bits: 0,
        maximum_absolute_rhs_mantissa: 0,
        symmetric: true,
        positive_diagonal: true,
        nonpositive_off_diagonal: true,
        strictly_row_diagonally_dominant: true,
        nonsingular_m_matrix: true,
        boundary,
    };
    let compiled = PeriodicSymmetricTridiagonal {
        dimension: size,
        fractional_bits,
        margin_mantissa: margin,
        off_diagonal_mantissas: table,
    };
    assert(compiled.model() == model);
    Ok((CompiledMatrixFamily::Tridiagonal(compiled), certificate))
}

/// A matrix compilation that gives what its recipe and seed determine.
pub(crate) open spec fn compiles(
    result: Result<(CompiledMatrixFamily, GeneratorCertificate), ProblemError>,
    recipe: MatrixRecipe,
    boundary: BoundaryRule,
    seed: Seq<u8>,
) -> bool {
    match compiled_matrix(recipe, seed) {
        None => result matches Err(error) && error == ProblemError::SeedStreamExhausted,
        Some(model) => match certificate_error(recipe, model) {
            Some(expected) => result matches Err(error) && error == expected,
            None => result matches Ok((family, certificate)) && family.model() == model
                && family.wf() && certifies_matrix(
                certificate,
                boundary,
                recipe_half_bandwidth(recipe),
                model,
            ),
        },
    }
}

/// Compiled edge diagonals keep the offsets of their recipe, and values within
/// its ranges.
proof fn lemma_compiled_edges(
    family_seed: Seq<u8>,
    edges: Seq<SymmetricDiaEdge>,
    dimension: u64,
    count: nat,
)
    requires
        count <= edges.len(),
        problem::edges_error(edges, dimension, edges.len()) is None,
        problem::incident_bound(edges, edges.len()) <= problem::MAX_EXACT_BINARY64_MANTISSA,
    ensures
        forall|k: int| 0 <= k < edges.len() ==> problem::edge_error(edges, dimension, k) is None,
        compiled_edges(family_seed, edges, count) matches Some(tables) ==> {
            &&& tables.len() == count
            &&& forall|k: int| #![trigger tables[k]]
                0 <= k < count ==> {
                    &&& tables[k].offset == edges[k].positive_offset
                    &&& tables[k].table.len() == pow2(edges[k].period_bits as nat)
                    &&& matrix::is_period(tables[k].table.len())
                    &&& forall|i: int|
                        0 <= i < tables[k].table.len() ==> -(edges[k].maximum_weight_mantissa as int)
                            <= #[trigger] tables[k].table[i] < 0
                }
            &&& matrix::incident_weight_bound(tables, count) <= problem::incident_bound(
                edges,
                count,
            )
        },
    decreases count,
{
    lemma_edges_valid(edges, dimension, edges.len());
    if count > 0 {
        lemma_compiled_edges(family_seed, edges, dimension, (count - 1) as nat);
        if let Some(before) = compiled_edges(family_seed, edges, (count - 1) as nat) {
            let edge = edges[count - 1];
            assert(problem::edge_error(edges, dimension, count - 1) is None);
            let seed = randomness::subseed_bytes(
                family_seed,
                edge_label((count - 1) as nat, edge.positive_offset as nat),
            );
            matrix::lemma_period_length(edge.period_bits as nat);
            lemma_incident_bound_monotonic(edges, count, edges.len());
            sampling::lemma_negative_table(
                seed,
                pow2(edge.period_bits as nat),
                edge.minimum_weight_mantissa as nat,
                edge.maximum_weight_mantissa as nat,
            );
            if let Some(tables) = compiled_edges(family_seed, edges, count) {
                let table = tables[count - 1].table;
                lemma_max_magnitude_at_most(table, edge.maximum_weight_mantissa as nat);
                assert forall|k: int| #![trigger tables[k]] 0 <= k < count - 1 implies tables[k] == before[k] by {}
                lemma_incident_weight_bound_prefix(tables, before, (count - 1) as nat);
            }
        }
    }
}

proof fn lemma_incident_weight_bound_prefix(left: Seq<EdgeModel>, right: Seq<EdgeModel>, count: nat)
    requires
        forall|k: int| 0 <= k < count ==> #[trigger] left[k] == right[k],
    ensures
        matrix::incident_weight_bound(left, count) == matrix::incident_weight_bound(right, count),
    decreases count,
{
    if count > 0 {
        lemma_incident_weight_bound_prefix(left, right, (count - 1) as nat);
        assert(left[count - 1] == right[count - 1]);
    }
}

pub proof fn lemma_edges_valid(edges: Seq<SymmetricDiaEdge>, dimension: u64, count: nat)
    requires
        problem::edges_error(edges, dimension, count) is None,
    ensures
        forall|k: int| 0 <= k < count ==> #[trigger] problem::edge_error(edges, dimension, k) is None,
    decreases count,
{
    if count > 0 {
        lemma_edges_valid(edges, dimension, (count - 1) as nat);
    }
}

proof fn lemma_incident_bound_monotonic(edges: Seq<SymmetricDiaEdge>, fewer: nat, count: nat)
    requires
        fewer <= count,
    ensures
        problem::incident_bound(edges, fewer) <= problem::incident_bound(edges, count),
    decreases count,
{
    if fewer < count {
        lemma_incident_bound_monotonic(edges, fewer, (count - 1) as nat);
    }
}

proof fn lemma_offsets_increase(edges: Seq<SymmetricDiaEdge>, dimension: u64, low: int, high: int)
    requires
        forall|k: int| 0 <= k < edges.len() ==> #[trigger] problem::edge_error(edges, dimension, k) is None,
        0 <= low < high < edges.len(),
    ensures
        edges[low].positive_offset < edges[high].positive_offset,
    decreases high - low,
{
    assert(problem::edge_error(edges, dimension, high) is None);
    if low < high - 1 {
        lemma_offsets_increase(edges, dimension, low, high - 1);
    }
}

proof fn lemma_compiled_dia(recipe: MatrixRecipe, seed: Seq<u8>)
    requires
        recipe is DiaLaplacian,
        problem::matrix_error(recipe) is None,
    ensures
        compiled_matrix(recipe, seed) matches Some(model) ==> model.wf(),
{
    if let MatrixRecipe::DiaLaplacian { dimension, edges, .. } = recipe {
        lemma_compiled_edges(
            labelled(seed, DIA_MATRIX_VALUES_LABEL),
            edges,
            dimension,
            edges.len(),
        );
        if let Some(model) = compiled_matrix(recipe, seed) {
            assert forall|k: int| #![trigger model.edges()[k]]
                0 <= k < model.edges().len() implies {
                &&& 0 < model.edges()[k].offset < model.dimension()
                &&& matrix::is_period(model.edges()[k].table.len())
                &&& forall|i: int|
                    0 <= i < model.edges()[k].table.len()
                        ==> #[trigger] model.edges()[k].table[i] < 0
            } by {
                assert(problem::edge_error(edges, dimension, k) is None);
            }
            assert forall|k: int, l: int|
                0 <= k < l < model.edges().len() implies (#[trigger] model.edges()[k]).offset < (
            #[trigger] model.edges()[l]).offset by {
                lemma_offsets_increase(edges, dimension, k, l);
            }
        }
    }
}

/// The label of one edge diagonal's value stream.
fn edge_label_bytes(index: usize, offset: u64) -> (label: Vec<u8>)
    ensures
        label@ == edge_label(index as nat, offset as nat),
{
    let mut label = bytes::copy_bytes(EDGE_LABEL_PREFIX.as_bytes());
    text::append_decimal(&mut label, index as u64);
    label.extend_from_slice(EDGE_LABEL_OFFSET.as_bytes());
    text::append_decimal(&mut label, offset);
    assert(label@ =~= edge_label(index as nat, offset as nat));
    label
}

proof fn lemma_compiled_edges_prefix(
    family_seed: Seq<u8>,
    edges: Seq<SymmetricDiaEdge>,
    fewer: nat,
    count: nat,
)
    requires
        fewer <= count,
    ensures
        compiled_edges(family_seed, edges, fewer) is None ==> compiled_edges(
            family_seed,
            edges,
            count,
        ) is None,
    decreases count,
{
    if fewer < count {
        lemma_compiled_edges_prefix(family_seed, edges, fewer, (count - 1) as nat);
    }
}

/// The descriptors and the flat table that hold the given edge tables.
pub(crate) open spec fn describes(
    descriptors: Seq<DiaEdgeDescriptor>,
    flat: Seq<i64>,
    tables: Seq<EdgeModel>,
) -> bool {
    &&& descriptors.len() == tables.len()
    &&& flat == matrix::flat_edges(tables, tables.len())
    &&& forall|k: int|
        0 <= k < descriptors.len() ==> {
            let descriptor = #[trigger] descriptors[k];
            &&& descriptor.table_start + descriptor.table_len <= flat.len()
            &&& compiled::described_edge(descriptor, flat) == tables[k]
        }
}

proof fn lemma_flat_edges_prefix(left: Seq<EdgeModel>, right: Seq<EdgeModel>, count: nat)
    requires
        forall|k: int| 0 <= k < count ==> #[trigger] left[k] == right[k],
    ensures
        matrix::flat_edges(left, count) == matrix::flat_edges(right, count),
    decreases count,
{
    if count > 0 {
        lemma_flat_edges_prefix(left, right, (count - 1) as nat);
        assert(left[count - 1] == right[count - 1]);
    }
}

fn append_edge(
    descriptors: &mut Vec<DiaEdgeDescriptor>,
    flat: &mut Vec<i64>,
    edge: SymmetricDiaEdge,
    index: usize,
    family_seed: InstanceSeed,
    Ghost(edges): Ghost<Seq<SymmetricDiaEdge>>,
    Ghost(dimension): Ghost<u64>,
) -> (filled: bool)
    requires
        index < edges.len(),
        edge == edges[index as int],
        edges.len() <= problem::MAX_EDGE_DIAGONALS,
        dimension <= problem::MAX_DIMENSION,
        problem::edges_error(edges, dimension, edges.len()) is None,
        problem::incident_bound(edges, edges.len()) <= problem::MAX_EXACT_BINARY64_MANTISSA,
        compiled_edges(family_seed@, edges, index as nat) matches Some(tables) && describes(
            old(descriptors)@,
            old(flat)@,
            tables,
        ),
    ensures
        match compiled_edges(family_seed@, edges, (index + 1) as nat) {
            None => !filled,
            Some(tables) => filled && describes(final(descriptors)@, final(flat)@, tables),
        },
{
    let ghost before = compiled_edges(family_seed@, edges, index as nat).unwrap();
    proof {
        lemma_compiled_edges(family_seed@, edges, dimension, (index + 1) as nat);
        assert(problem::edge_error(edges, dimension, index as int) is None);
        lemma_incident_bound_monotonic(edges, (index + 1) as nat, edges.len());
    }
    let table_len: usize = period_length(edge.period_bits);
    let table_start: usize = flat.len();
    let label = edge_label_bytes(index, edge.positive_offset);
    let edge_seed = derive_labelled(family_seed, label.as_slice());
    let filled = sampling::append_negative_table(
        flat,
        edge_seed,
        table_len,
        edge.minimum_weight_mantissa,
        edge.maximum_weight_mantissa,
    );
    if !filled {
        return false;
    }
    descriptors.push(
        DiaEdgeDescriptor {
            positive_offset: edge.positive_offset as usize,
            table_start,
            table_len,
        },
    );
    proof {
        let tables = compiled_edges(family_seed@, edges, (index + 1) as nat).unwrap();
        let table = tables[index as int].table;
        assert forall|k: int| 0 <= k < index implies #[trigger] tables[k] == before[k] by {}
        lemma_flat_edges_prefix(tables, before, index as nat);
        assert(flat@ == matrix::flat_edges(tables, tables.len()));
        assert forall|k: int| 0 <= k < descriptors@.len() implies {
            let descriptor = #[trigger] descriptors@[k];
            &&& descriptor.table_start + descriptor.table_len <= flat@.len()
            &&& compiled::described_edge(descriptor, flat@) == tables[k]
        } by {
            let descriptor = descriptors@[k];
            if k < index {
                assert(descriptor == old(descriptors)@[k]);
                assert(compiled::described_edge(descriptor, old(flat)@) == before[k]);
                assert(compiled::described_edge(descriptor, flat@).table
                    =~= compiled::described_edge(descriptor, old(flat)@).table);
            } else {
                assert(compiled::described_edge(descriptor, flat@).table =~= table);
            }
        }
    }
    true
}

fn compile_dia(
    dimension: u64,
    boundary: BoundaryRule,
    fractional_bits: u8,
    shift: u64,
    edges: &Vec<SymmetricDiaEdge>,
    instance_seed: InstanceSeed,
) -> (result: Result<(CompiledMatrixFamily, GeneratorCertificate), ProblemError>)
    requires
        problem::matrix_error(
            (MatrixRecipe::DiaLaplacian {
                dimension,
                boundary,
                fractional_bits,
                shift,
                edges: edges@,
            }),
        ) is None,
    ensures
        compiles(
            result,
            (MatrixRecipe::DiaLaplacian {
                dimension,
                boundary,
                fractional_bits,
                shift,
                edges: edges@,
            }),
            boundary,
            instance_seed@,
        ),
{
    let ghost recipe = MatrixRecipe::DiaLaplacian {
        dimension,
        boundary,
        fractional_bits,
        shift,
        edges: edges@,
    };
    let family_seed = derive_subseed(instance_seed, DIA_MATRIX_VALUES_LABEL);
    let mut descriptors: Vec<DiaEdgeDescriptor> = Vec::with_capacity(edges.len());
    let mut flat: Vec<i64> = Vec::new();
    let mut index: usize = 0;
    while index < edges.len()
        invariant
            index <= edges@.len() <= problem::MAX_EDGE_DIAGONALS,
            dimension <= problem::MAX_DIMENSION,
            problem::edges_error(edges@, dimension, edges@.len()) is None,
            problem::incident_bound(edges@, edges@.len()) <= problem::MAX_EXACT_BINARY64_MANTISSA,
            compiled_edges(family_seed@, edges@, index as nat) matches Some(tables) && describes(
                descriptors@,
                flat@,
                tables,
            ),
            recipe == (MatrixRecipe::DiaLaplacian {
                dimension,
                boundary,
                fractional_bits,
                shift,
                edges: edges@,
            }),
            family_seed@ == labelled(instance_seed@, DIA_MATRIX_VALUES_LABEL),
        decreases edges@.len() - index,
    {
        proof {
            lemma_compiled_edges_prefix(
                family_seed@,
                edges@,
                (index + 1) as nat,
                edges@.len(),
            );
        }
        if !append_edge(
            &mut descriptors,
            &mut flat,
            edges[index],
            index,
            family_seed,
            Ghost(edges@),
            Ghost(dimension),
        ) {
            return Err(ProblemError::SeedStreamExhausted);
        }
        index = index + 1;
    }
    let size: usize = dimension as usize;
    let compiled = PeriodicSymmetricDiaLaplacian {
        dimension: size,
        fractional_bits,
        diagonal_shift_mantissa: shift,
        edges: descriptors,
        off_diagonal_mantissas: flat,
    };
    let ghost model = compiled_matrix(recipe, instance_seed@).unwrap();
    proof {
        lemma_compiled_dia(recipe, instance_seed@);
        assert(compiled.model().edges() =~= model.edges());
        assert(compiled.model() == model);
    }
    dia_certificate(compiled, boundary, Ghost(recipe), Ghost(instance_seed@))
}

/// Certifies a compiled shifted Laplacian.
fn dia_certificate(
    compiled: PeriodicSymmetricDiaLaplacian,
    boundary: BoundaryRule,
    Ghost(recipe): Ghost<MatrixRecipe>,
    Ghost(seed): Ghost<Seq<u8>>,
) -> (result: Result<(CompiledMatrixFamily, GeneratorCertificate), ProblemError>)
    requires
        recipe is DiaLaplacian,
        problem::matrix_error(recipe) is None,
        compiled_matrix(recipe, seed) == Some(compiled.model()),
        compiled.tables_fit(),
        compiled.off_diagonal_mantissas@ == matrix::off_diagonal_values(compiled.model()),
    ensures
        compiles(result, recipe, boundary, seed),
{
    let ghost model = compiled.model();
    let ghost edges = model.edges();
    let ghost recipe_edges = recipe->edges;
    proof {
        lemma_compiled_dia(recipe, seed);
        lemma_compiled_edges(
            labelled(seed, DIA_MATRIX_VALUES_LABEL),
            recipe_edges,
            recipe.dimension(),
            recipe_edges.len(),
        );
    }
    let size: usize = compiled.dimension;
    let shift: u64 = compiled.diagonal_shift_mantissa;
    let ghost count_term = |k: int| 2 * (size as int - model.edges()[k].offset);
    let ghost period_term = |k: int|
        if edges[k].table.len() < size as nat - edges[k].offset {
            edges[k].table.len() as int
        } else {
            size as nat - edges[k].offset
        };
    let mut structural_nonzeros: u64 = size as u64;
    let mut matrix_period: usize = 0;
    let mut incident: u64 = 0;
    let mut half_bandwidth: usize = 0;
    let mut index: usize = 0;
    while index < compiled.edges.len()
        invariant
            model == compiled.model(),
            model.wf(),
            compiled.tables_fit(),
            edges == model.edges(),
            edges.len() == compiled.edges@.len(),
            size == compiled.dimension,
            count_term == (|k: int| 2 * (size as int - model.edges()[k].offset)),
            period_term == (|k: int|
                if edges[k].table.len() < size as nat - edges[k].offset {
                    edges[k].table.len() as int
                } else {
                    size as nat - edges[k].offset
                }),
            index <= edges.len(),
            structural_nonzeros == size + sums::sum_below(index as nat, count_term),
            structural_nonzeros <= size + index * 0x8000_0000,
            matrix_period == sums::sum_below(index as nat, period_term),
            matrix_period <= index * 65536,
            incident == matrix::incident_weight_bound(edges, index as nat),
            index > 0 ==> half_bandwidth == edges[index - 1].offset,
        decreases edges.len() - index,
    {
        let descriptor = compiled.edges[index];
        proof {
            assert(edges[index as int] == compiled::described_edge(
                descriptor,
                compiled.off_diagonal_mantissas@,
            ));
            matrix::lemma_incident_weight_bound_monotonic(
                edges,
                (index + 1) as nat,
                edges.len(),
            );
        }
        let maximum: u64 = table_range_maximum(
            &compiled.off_diagonal_mantissas,
            descriptor.table_start,
            descriptor.table_len,
        );
        incident = incident + 2 * maximum;
        let edge_count: usize = size - descriptor.positive_offset;
        structural_nonzeros = structural_nonzeros + 2 * (edge_count as u64);
        matrix_period = matrix_period + if descriptor.table_len < edge_count {
            descriptor.table_len
        } else {
            edge_count
        };
        half_bandwidth = descriptor.positive_offset;
        index = index + 1;
    }
    proof {
        sums::lemma_sum_equal(
            edges.len(),
            count_term,
            |k: int| 2 * (model.dimension() as int - model.edges()[k].offset),
        );
        sums::lemma_sum_equal(
            edges.len(),
            period_term,
            |k: int|
                if edges[k].table.len() < model.dimension() - edges[k].offset {
                    edges[k].table.len() as int
                } else {
                    model.dimension() - edges[k].offset
                },
        );
    }
    if structural_nonzeros > usize::MAX as u64 {
        return Err(ProblemError::IntegerOverflow("compiled DIA structural nonzeros"));
    }
    let minimum_generated: u64 = table_minimum(&compiled.off_diagonal_mantissas);
    let maximum_generated: u64 = table_maximum(&compiled.off_diagonal_mantissas);
    let certificate = GeneratorCertificate {
        dimension: size,
        structural_nonzeros: structural_nonzeros as usize,
        maximum_nonzeros_per_row: (1 + 2 * compiled.edges.len()) as u8,
        maximum_half_bandwidth: half_bandwidth,
        matrix_period,
        coefficient_fractional_bits: compiled.fractional_bits,
        minimum_off_diagonal_magnitude_mantissa: minimum_generated,
        maximum_off_diagonal_magnitude_mantissa: maximum_generated,
        maximum_diagonal_mantissa_bound: incident + shift,
        maximum_absolute_row_sum_mantissa_bound: 2 * incident + shift,
        maximum_absolute_column_sum_mantissa_bound: 2 * incident + shift,
        strict_diagonal_dominance_margin_mantissa: shift,
        rhs_period: 0,
        rhs_fractional_bits: 0,
        maximum_absolute_rhs_mantissa: 0,
        symmetric: true,
        positive_diagonal: true,
        nonpositive_off_diagonal: true,
        strictly_row_diagonally_dominant: true,
        nonsingular_m_matrix: true,
        boundary,
    };
    Ok((CompiledMatrixFamily::SymmetricDiaLaplacian(compiled), certificate))
}

fn table_range_maximum(table: &Vec<i64>, start: usize, len: usize) -> (maximum: u64)
    requires
        start + len <= table@.len(),
    ensures
        maximum == matrix::max_magnitude(table@.subrange(start as int, start + len)),
{
    let ghost range = table@.subrange(start as int, start + len);
    let mut maximum: u64 = 0;
    let mut index: usize = 0;
    assert(range.take(0) =~= Seq::<i64>::empty());
    assert(table.len() == table@.len());
    while index < len
        invariant
            start + len <= table@.len(),
            table.len() == table@.len(),
            range == table@.subrange(start as int, start + len),
            index <= len,
            maximum == matrix::max_magnitude(range.take(index as int)),
        decreases len - index,
    {
        assert(range.take(index + 1).drop_last() =~= range.take(index as int));
        let magnitude: u64 = problem::unsigned_magnitude(table[start + index]);
        if magnitude > maximum {
            maximum = magnitude;
        }
        index = index + 1;
    }
    assert(range.take(index as int) =~= range);
    maximum
}

proof fn lemma_row_patterns(row_pattern_bits: u8, dimension: nat)
    requires
        row_pattern_bits <= problem::MAX_PERIOD_BITS,
        2 <= dimension <= problem::MAX_DIMENSION,
    ensures
        0 < row_patterns(row_pattern_bits, dimension) <= 65536,
        matrix::is_period(row_patterns(row_pattern_bits, dimension)),
        powers::padded(dimension) <= problem::MAX_DIMENSION,
{
    matrix::lemma_period_length(row_pattern_bits as nat);
    lemma2_to64();
    powers::lemma_padded(dimension);
    powers::lemma_ceil_log2_bound(dimension, 30);
    if powers::padded(dimension) <= pow2(row_pattern_bits as nat) {
        let exponent = powers::ceil_log2(dimension);
        if row_pattern_bits < exponent {
            lemma_pow2_strictly_increases(row_pattern_bits as nat, exponent);
        }
        matrix::lemma_period_length(exponent);
    }
}

proof fn lemma_compiled_row_sparse(recipe: MatrixRecipe, seed: Seq<u8>)
    requires
        recipe is RowSparse,
        problem::matrix_error(recipe) is None,
    ensures
        compiled_matrix(recipe, seed) matches Some(model) ==> model.wf(),
{
    if let MatrixRecipe::RowSparse {
        dimension,
        row_pattern_bits,
        half_bandwidth,
        row_width,
        minimum,
        maximum,
        ..
    } = recipe {
        let period = row_patterns(row_pattern_bits, dimension as nat);
        let width = (row_width - 1) as nat;
        lemma_row_patterns(row_pattern_bits, dimension as nat);
        sampling::lemma_patterns(
            labelled(seed, NONSYMMETRIC_STRUCTURE_LABEL),
            half_bandwidth as nat,
            width,
            period,
        );
        sampling::lemma_nonzero_table(
            labelled(seed, NONSYMMETRIC_OFF_DIAGONAL_VALUES_LABEL),
            period * width,
            minimum as int,
            maximum as int,
        );
        sampling::lemma_nonzero_table(
            labelled(seed, NONSYMMETRIC_DIAGONAL_VALUES_LABEL),
            period,
            minimum as int,
            maximum as int,
        );
    }
}

fn periodic_index_count(limit: u64, period: u64, pattern: u64) -> (count: u64)
    requires
        0 < period,
    ensures
        count == periodic_count(limit as int, period as int, pattern as int),
        count <= limit,
{
    if pattern >= limit {
        0
    } else {
        proof {
            lemma_periodic_count(limit as int, period as int, pattern as int);
        }
        1 + (limit - 1 - pattern) / period
    }
}

proof fn lemma_periodic_count(limit: int, period: int, pattern: int)
    requires
        0 < period,
        0 <= pattern,
    ensures
        0 <= periodic_count(limit, period, pattern),
        0 <= limit ==> periodic_count(limit, period, pattern) <= limit,
{
    if pattern < limit {
        assert(0 <= (limit - 1 - pattern) / period <= limit - 1 - pattern) by (nonlinear_arith)
            requires
                0 < period,
                0 <= limit - 1 - pattern,
        ;
    }
}

proof fn lemma_periodic_count_monotonic(low: int, high: int, period: int, pattern: int)
    requires
        low <= high,
        0 < period,
    ensures
        periodic_count(low, period, pattern) <= periodic_count(high, period, pattern),
{
    if pattern < low {
        assert((low - 1 - pattern) / period <= (high - 1 - pattern) / period) by (nonlinear_arith)
            requires
                low <= high,
                0 < period,
        ;
    } else if pattern < high {
        assert(0 <= (high - 1 - pattern) / period) by (nonlinear_arith)
            requires
                0 <= high - 1 - pattern,
                0 < period,
        ;
    }
}

fn periodic_offset_count(dimension: u64, period: u64, pattern: u64, signed_offset: i32) -> (count:
    u64)
    requires
        0 < period,
        problem::magnitude(signed_offset as int) <= dimension,
    ensures
        count == displaced_count(
            dimension as int,
            period as int,
            pattern as int,
            signed_offset as int,
        ),
        count <= dimension,
{
    if signed_offset < 0 {
        let lower: u64 = (-(signed_offset as i64)) as u64;
        proof {
            lemma_periodic_count_monotonic(
                lower as int,
                dimension as int,
                period as int,
                pattern as int,
            );
        }
        periodic_index_count(dimension, period, pattern) - periodic_index_count(
            lower,
            period,
            pattern,
        )
    } else {
        periodic_index_count(dimension - signed_offset as u64, period, pattern)
    }
}

/// The entries that the active patterns keep inside the matrix.
fn row_sparse_nonzeros(compiled: &PeriodicNonsymmetricRowSparse) -> (count: u64)
    requires
        compiled.model().wf(),
    ensures
        count == structural_count(compiled.model()),
{
    let ghost model = compiled.model();
    let dimension: u64 = compiled.dimension as u64;
    let width: usize = compiled.off_diagonals_per_pattern;
    let period: usize = compiled.period();
    let active: usize = if period < compiled.dimension {
        period
    } else {
        compiled.dimension
    };
    let ghost offsets = compiled.signed_offsets@;
    let ghost entry = |p: int, k: int|
        displaced_count(dimension as int, period as int, p, offsets[p * width + k] as int);
    let ghost by_pattern = |p: int| sums::sum_below(width as nat, |k: int| entry(p, k));
    let mut count: u64 = dimension;
    let mut pattern: usize = 0;
    while pattern < active
        invariant
            model == compiled.model(),
            model.wf(),
            dimension == compiled.dimension,
            width == compiled.off_diagonals_per_pattern,
            width <= 254,
            period == compiled.diagonal_mantissas@.len(),
            0 < period <= 65536,
            active <= period,
            offsets == compiled.signed_offsets@,
            entry == (|p: int, k: int|
                displaced_count(dimension as int, period as int, p, offsets[p * width + k] as int)),
            by_pattern == (|p: int| sums::sum_below(width as nat, |k: int| entry(p, k))),
            pattern <= active,
            count == dimension + sums::sum_below(pattern as nat, by_pattern),
            count <= 0x4000_0000 + pattern * 272730423296,
            dimension <= 0x4000_0000,
        decreases active - pattern,
    {
        proof {
            compiled::lemma_pattern_range(pattern as int, period as int, width as int);
            assert(compiled.signed_offsets.len() == offsets.len());
        }
        let start: usize = pattern * width;
        let ghost row_entry = |k: int| entry(pattern as int, k);
        let ghost before = count;
        let mut index: usize = 0;
        while index < width
            invariant
                model == compiled.model(),
                model.wf(),
                dimension == compiled.dimension,
                width == compiled.off_diagonals_per_pattern,
                width <= 254,
                period == compiled.diagonal_mantissas@.len(),
                0 < period <= 65536,
                pattern < active <= period,
                offsets == compiled.signed_offsets@,
                compiled.signed_offsets.len() == offsets.len(),
                start == pattern * width,
                start + width <= offsets.len(),
                entry == (|p: int, k: int|
                    displaced_count(
                        dimension as int,
                        period as int,
                        p,
                        offsets[p * width + k] as int,
                    )),
                row_entry == (|k: int| entry(pattern as int, k)),
                index <= width,
                count == before + sums::sum_below(index as nat, row_entry),
                count <= before + index * 0x4000_0000,
                before <= 0x4000_0000 + pattern * 272730423296,
                dimension <= 0x4000_0000,
            decreases width - index,
        {
            assert(offsets[pattern * width + index] != 0);
            let offset: i32 = compiled.signed_offsets[start + index];
            let kept: u64 = periodic_offset_count(
                dimension,
                period as u64,
                pattern as u64,
                offset,
            );
            assert(kept == row_entry(index as int));
            count = count + kept;
            index = index + 1;
        }
        proof {
            assert(by_pattern(pattern as int) == sums::sum_below(width as nat, row_entry)) by {
                sums::lemma_sum_equal(
                    width as nat,
                    |k: int| entry(pattern as int, k),
                    row_entry,
                );
            }
        }
        pattern = pattern + 1;
    }
    proof {
        let direct = |p: int|
            sums::sum_below(
                width as nat,
                |k: int|
                    displaced_count(
                        model.dimension() as int,
                        compiled.diagonal_mantissas@.len() as int,
                        p,
                        offsets[p * width + k] as int,
                    ),
            );
        assert forall|p: int| 0 <= p < active implies #[trigger] by_pattern(p) == direct(p) by {
            sums::lemma_sum_equal(
                width as nat,
                |k: int| entry(p, k),
                |k: int|
                    displaced_count(
                        model.dimension() as int,
                        compiled.diagonal_mantissas@.len() as int,
                        p,
                        offsets[p * width + k] as int,
                    ),
            );
        }
        sums::lemma_sum_equal(active as nat, by_pattern, direct);
    }
    count
}

fn every_positive(table: &Vec<i64>) -> (holds: bool)
    ensures
        holds == all_positive(table@),
{
    let mut index: usize = 0;
    while index < table.len()
        invariant
            index <= table@.len(),
            forall|i: int| 0 <= i < index ==> #[trigger] table@[i] > 0,
        decreases table@.len() - index,
    {
        if table[index] <= 0 {
            assert(table@[index as int] <= 0);
            return false;
        }
        index = index + 1;
    }
    true
}

fn every_negative(table: &Vec<i64>) -> (holds: bool)
    ensures
        holds == all_negative(table@),
{
    let mut index: usize = 0;
    while index < table.len()
        invariant
            index <= table@.len(),
            forall|i: int| 0 <= i < index ==> #[trigger] table@[i] < 0,
        decreases table@.len() - index,
    {
        if table[index] >= 0 {
            assert(table@[index as int] >= 0);
            return false;
        }
        index = index + 1;
    }
    true
}

fn compile_row_sparse(spec: &MatrixSpec, instance_seed: InstanceSeed) -> (result: Result<
    (CompiledMatrixFamily, GeneratorCertificate),
    ProblemError,
>)
    requires
        spec is SeededNonsymmetricRowSparseV1,
        problem::matrix_error(spec@) is None,
    ensures
        compiles(result, spec@, BoundaryRule::TruncateV1, instance_seed@),
{
    if let MatrixSpec::SeededNonsymmetricRowSparseV1 {
        dimension,
        boundary,
        row_pattern_bits,
        maximum_half_bandwidth,
        maximum_nonzeros_per_row,
        fractional_bits,
        minimum_mantissa,
        maximum_mantissa,
    } = spec {
        let ghost recipe = spec@;
        proof {
            lemma_row_patterns(*row_pattern_bits, *dimension as nat);
            lemma_compiled_row_sparse(recipe, instance_seed@);
        }
        let size: usize = *dimension as usize;
        let requested: usize = period_length(*row_pattern_bits);
        let padded: usize = powers::power_of_two(powers::padded_exponent(size));
        let period: usize = if requested < padded {
            requested
        } else {
            padded
        };
        let width: usize = (*maximum_nonzeros_per_row - 1) as usize;
        proof {
            assert(period * width <= 65536 * 254) by (nonlinear_arith)
                requires
                    period <= 65536,
                    width <= 254,
            ;
        }
        let total: usize = period * width;
        let structure_seed = derive_subseed(instance_seed, NONSYMMETRIC_STRUCTURE_LABEL);
        let offsets = match sampling::sample_patterns(
            structure_seed,
            *maximum_half_bandwidth,
            width,
            period,
        ) {
            Some(offsets) => offsets,
            None => {
                return Err(ProblemError::SeedStreamExhausted);
            },
        };
        let value_seed = derive_subseed(instance_seed, NONSYMMETRIC_OFF_DIAGONAL_VALUES_LABEL);
        let values = match sampling::sample_nonzero_table(
            value_seed,
            total,
            *minimum_mantissa,
            *maximum_mantissa,
        ) {
            Some(values) => values,
            None => {
                return Err(ProblemError::SeedStreamExhausted);
            },
        };
        let diagonal_seed = derive_subseed(instance_seed, NONSYMMETRIC_DIAGONAL_VALUES_LABEL);
        let diagonal = match sampling::sample_nonzero_table(
            diagonal_seed,
            period,
            *minimum_mantissa,
            *maximum_mantissa,
        ) {
            Some(diagonal) => diagonal,
            None => {
                return Err(ProblemError::SeedStreamExhausted);
            },
        };
        let compiled = PeriodicNonsymmetricRowSparse {
            dimension: size,
            fractional_bits: *fractional_bits,
            off_diagonals_per_pattern: width,
            signed_offsets: offsets,
            off_diagonal_mantissas: values,
            diagonal_mantissas: diagonal,
        };
        let ghost model = compiled_matrix(recipe, instance_seed@).unwrap();
        assert(compiled.model() == model);
        row_sparse_certificate(
            compiled,
            *boundary,
            *maximum_half_bandwidth,
            Ghost(recipe),
            Ghost(instance_seed@),
        )
    } else {
        Err(ProblemError::SeedStreamExhausted)
    }
}

/// Certifies a compiled row-sparse matrix.
fn row_sparse_certificate(
    compiled: PeriodicNonsymmetricRowSparse,
    boundary: BoundaryRule,
    half_bandwidth: u64,
    Ghost(recipe): Ghost<MatrixRecipe>,
    Ghost(seed): Ghost<Seq<u8>>,
) -> (result: Result<(CompiledMatrixFamily, GeneratorCertificate), ProblemError>)
    requires
        recipe is RowSparse,
        problem::matrix_error(recipe) is None,
        half_bandwidth == recipe_half_bandwidth(recipe),
        compiled_matrix(recipe, seed) == Some(compiled.model()),
    ensures
        compiles(result, recipe, boundary, seed),
{
    let ghost model = compiled.model();
    proof {
        lemma_compiled_row_sparse(recipe, seed);
        lemma_max_magnitude_at_most(
            compiled.off_diagonal_mantissas@,
            problem::MAX_EXACT_BINARY64_MANTISSA as nat,
        );
        lemma_max_magnitude_at_most(
            compiled.diagonal_mantissas@,
            problem::MAX_EXACT_BINARY64_MANTISSA as nat,
        );
    }
    let structural_nonzeros: u64 = row_sparse_nonzeros(&compiled);
    if structural_nonzeros > usize::MAX as u64 {
        return Err(ProblemError::IntegerOverflow("compiled nonsymmetric structural nonzeros"));
    }
    let maximum_off_diagonal: u64 = table_maximum(&compiled.off_diagonal_mantissas);
    let minimum_off_diagonal: u64 = table_minimum(&compiled.off_diagonal_mantissas);
    let maximum_diagonal: u64 = table_maximum(&compiled.diagonal_mantissas);
    let width: usize = compiled.off_diagonals_per_pattern;
    let size: usize = compiled.dimension;
    proof {
        assert(maximum_off_diagonal * width <= problem::MAX_EXACT_BINARY64_MANTISSA * 254)
            by (nonlinear_arith)
            requires
                maximum_off_diagonal <= problem::MAX_EXACT_BINARY64_MANTISSA,
                width <= 254,
        ;
    }
    let row_sum: u64 = maximum_off_diagonal * (width as u64) + maximum_diagonal;
    let sources: u64 = if ((size - 1) as u64) < 2 * half_bandwidth {
        (size - 1) as u64
    } else {
        2 * half_bandwidth
    };
    proof {
        assert(0 <= maximum_off_diagonal * sources <= problem::MAX_EXACT_BINARY64_MANTISSA
            * problem::MAX_DIMENSION) by (nonlinear_arith)
            requires
                maximum_off_diagonal <= problem::MAX_EXACT_BINARY64_MANTISSA,
                sources <= problem::MAX_DIMENSION,
        ;
    }
    let column_sum: u128 = maximum_off_diagonal as u128 * sources as u128
        + maximum_diagonal as u128;
    if column_sum > u64::MAX as u128 {
        return Err(ProblemError::IntegerOverflow("compiled nonsymmetric column-sum bound"));
    }
    let period: usize = compiled.period();
    let active: usize = if period < size {
        period
    } else {
        size
    };
    proof {
        assert(active * (width + 1) <= 65536 * 255) by (nonlinear_arith)
            requires
                active <= 65536,
                width <= 254,
        ;
    }
    let certificate = GeneratorCertificate {
        dimension: size,
        structural_nonzeros: structural_nonzeros as usize,
        maximum_nonzeros_per_row: (width + 1) as u8,
        maximum_half_bandwidth: half_bandwidth as usize,
        matrix_period: active * (width + 1),
        coefficient_fractional_bits: compiled.fractional_bits,
        minimum_off_diagonal_magnitude_mantissa: minimum_off_diagonal,
        maximum_off_diagonal_magnitude_mantissa: maximum_off_diagonal,
        maximum_diagonal_mantissa_bound: maximum_diagonal,
        maximum_absolute_row_sum_mantissa_bound: row_sum,
        maximum_absolute_column_sum_mantissa_bound: column_sum as u64,
        strict_diagonal_dominance_margin_mantissa: 0,
        rhs_period: 0,
        rhs_fractional_bits: 0,
        maximum_absolute_rhs_mantissa: 0,
        symmetric: false,
        positive_diagonal: every_positive(&compiled.diagonal_mantissas),
        nonpositive_off_diagonal: every_negative(&compiled.off_diagonal_mantissas),
        strictly_row_diagonally_dominant: false,
        nonsingular_m_matrix: false,
        boundary,
    };
    Ok((CompiledMatrixFamily::NonsymmetricRowSparse(compiled), certificate))
}

pub(crate) fn compile_matrix(spec: &MatrixSpec, instance_seed: InstanceSeed) -> (result: Result<
    (CompiledMatrixFamily, GeneratorCertificate),
    ProblemError,
>)
    requires
        problem::matrix_error(spec@) is None,
    ensures
        compiles(result, spec@, BoundaryRule::TruncateV1, instance_seed@),
{
    match spec {
        MatrixSpec::SeededSymmetricTridiagonalV1 {
            dimension,
            boundary,
            off_diagonal,
            diagonal,
        } => compile_tridiagonal(*dimension, *boundary, *off_diagonal, *diagonal, instance_seed),
        MatrixSpec::SeededSymmetricDiaLaplacianV1 {
            dimension,
            boundary,
            fractional_bits,
            diagonal_shift_mantissa,
            edge_diagonals,
        } => compile_dia(
            *dimension,
            *boundary,
            *fractional_bits,
            *diagonal_shift_mantissa,
            edge_diagonals,
            instance_seed,
        ),
        MatrixSpec::SeededNonsymmetricRowSparseV1 { .. } => compile_row_sparse(
            spec,
            instance_seed,
        ),
    }
}

/// Whatever a valid recipe compiles to is a well-formed matrix.
pub proof fn lemma_compiled_matrix(recipe: MatrixRecipe, seed: Seq<u8>)
    requires
        problem::matrix_error(recipe) is None,
    ensures
        compiled_matrix(recipe, seed) matches Some(model) ==> model.wf() && model.dimension()
            == recipe.dimension(),
{
    match recipe {
        MatrixRecipe::Tridiagonal { .. } => lemma_compiled_tridiagonal(recipe, seed),
        MatrixRecipe::DiaLaplacian { .. } => lemma_compiled_dia(recipe, seed),
        MatrixRecipe::RowSparse { .. } => lemma_compiled_row_sparse(recipe, seed),
    }
}

/// A compiled row-sparse matrix has as many patterns as its recipe gives.
pub proof fn lemma_row_sparse_period(recipe: MatrixRecipe, seed: Seq<u8>)
    requires
        problem::matrix_error(recipe) is None,
    ensures
        recipe matches MatrixRecipe::RowSparse { row_pattern_bits, dimension, .. } ==> (
        compiled_matrix(recipe, seed) matches Some(MatrixModel::RowSparse { diagonal, .. })
            ==> diagonal.len() == row_patterns(row_pattern_bits, dimension as nat)),
{
    if let MatrixRecipe::RowSparse { row_pattern_bits, dimension, minimum, maximum, .. } = recipe {
        sampling::lemma_nonzero_table(
            labelled(seed, NONSYMMETRIC_DIAGONAL_VALUES_LABEL),
            row_patterns(row_pattern_bits, dimension as nat),
            minimum as int,
            maximum as int,
        );
    }
}

/// A compiled shifted Laplacian keeps the offsets and the periods of its recipe.
pub proof fn lemma_dia_offsets(recipe: MatrixRecipe, seed: Seq<u8>)
    requires
        problem::matrix_error(recipe) is None,
    ensures
        recipe matches MatrixRecipe::DiaLaplacian { edges, .. } ==> (compiled_matrix(recipe, seed)
            matches Some(model) ==> model.edges().len() == edges.len() && forall|k: int|
            0 <= k < edges.len() ==> (#[trigger] model.edges()[k]).offset
                == edges[k].positive_offset && model.edges()[k].table.len() == pow2(
                edges[k].period_bits as nat,
            ) && problem::edge_error(edges, recipe.dimension(), k) is None),
{
    if let MatrixRecipe::DiaLaplacian { dimension, edges, .. } = recipe {
        lemma_compiled_edges(
            labelled(seed, DIA_MATRIX_VALUES_LABEL),
            edges,
            dimension,
            edges.len(),
        );
    }
}

} // verus!
