//! Problem templates, finalized problems, and the rules that both must meet.

use vstd::prelude::*;

use crate::bytes;
use crate::canonical;
use crate::canonical::{
    domain_separated_digest, encode_to_vec, CanonicalEncode, Digest, Encoder,
};
use crate::randomness;
use crate::randomness::{
    challenge_context_digest, derive_instance_seed, CanonicalContextBytes, ChallengeContext,
    FinalizedRandomness, InstanceSeed, ProblemTemplateDigest, RandomnessModel, TemplateRandomness,
    TemplateRandomnessModel, MAX_CHALLENGE_CONTEXT_BYTES,
};
use crate::text;

verus! {

/// Largest accepted logical matrix dimension.
///
/// Besides bounding service work, this keeps `3*n - 2` representable by
/// `usize` even on a 32-bit target.
pub const MAX_DIMENSION: u64 = 1073741824;

pub const MAX_PERIOD_BITS: u8 = 16;

pub const MAX_FRACTIONAL_BITS: u8 = 52;

pub const MIN_DIMENSION: u64 = 2;

/// Largest integer magnitude that binary64 holds exactly together with all
/// smaller ones.
pub const MAX_EXACT_BINARY64_MANTISSA: u64 = 9007199254740991;

pub const MAX_REQUESTED_OUTPUTS: usize = 8;

/// Largest number of edge diagonals whose row width fits in one byte.
pub const MAX_EDGE_DIAGONALS: usize = 127;

pub const TEMPLATE_DIGEST_DOMAIN: &'static str = "sparse-solve/problem-template/v1";

pub const PROBLEM_DIGEST_DOMAIN: &'static str = "sparse-solve/problem/v1";

#[derive(Clone, Copy, Debug, PartialEq, Eq, Hash, Structural)]
pub enum TemplateSchema {
    V1,
}

#[derive(Clone, Copy, Debug, PartialEq, Eq, Hash, Structural)]
pub enum ProblemSchema {
    V1,
}

/// Boundary behavior is explicit even though only one rule is registered.
#[derive(Clone, Copy, Debug, PartialEq, Eq, Hash, Structural)]
pub enum BoundaryRule {
    TruncateV1,
}

/// Exact periodic off-diagonal value recipe.
#[derive(Clone, Copy, Debug, PartialEq, Eq, Structural)]
pub enum OffDiagonalValues {
    SeededPeriodicNegativeDyadicV1 {
        period_bits: u8,
        fractional_bits: u8,
        minimum_magnitude_mantissa: u64,
        maximum_magnitude_mantissa: u64,
    },
}

/// Construction of the positive main diagonal after off-diagonal generation.
#[derive(Clone, Copy, Debug, PartialEq, Eq, Structural)]
pub enum DiagonalConstruction {
    AbsoluteRowSumPlusMarginV1 { margin_mantissa: u64 },
}

/// One generated diagonal of undirected edges between rows that lie
/// `positive_offset` apart.
#[derive(Clone, Copy, Debug, PartialEq, Eq, Structural)]
pub struct SymmetricDiaEdge {
    pub positive_offset: u64,
    pub period_bits: u8,
    pub minimum_weight_mantissa: u64,
    pub maximum_weight_mantissa: u64,
}

/// Registered sparse matrix construction families.
#[derive(Debug, PartialEq, Eq)]
pub enum MatrixSpec {
    SeededSymmetricTridiagonalV1 {
        dimension: u64,
        boundary: BoundaryRule,
        off_diagonal: OffDiagonalValues,
        diagonal: DiagonalConstruction,
    },
    SeededSymmetricDiaLaplacianV1 {
        dimension: u64,
        boundary: BoundaryRule,
        fractional_bits: u8,
        diagonal_shift_mantissa: u64,
        edge_diagonals: Vec<SymmetricDiaEdge>,
    },
    SeededNonsymmetricRowSparseV1 {
        dimension: u64,
        boundary: BoundaryRule,
        row_pattern_bits: u8,
        maximum_half_bandwidth: u64,
        maximum_nonzeros_per_row: u8,
        fractional_bits: u8,
        minimum_mantissa: i64,
        maximum_mantissa: i64,
    },
}

/// What a matrix specification says.
#[verifier::ext_equal]
pub enum MatrixRecipe {
    Tridiagonal {
        dimension: u64,
        boundary: BoundaryRule,
        period_bits: u8,
        fractional_bits: u8,
        minimum: u64,
        maximum: u64,
        margin: u64,
    },
    DiaLaplacian {
        dimension: u64,
        boundary: BoundaryRule,
        fractional_bits: u8,
        shift: u64,
        edges: Seq<SymmetricDiaEdge>,
    },
    RowSparse {
        dimension: u64,
        boundary: BoundaryRule,
        row_pattern_bits: u8,
        half_bandwidth: u64,
        row_width: u8,
        fractional_bits: u8,
        minimum: i64,
        maximum: i64,
    },
}

impl View for MatrixSpec {
    type V = MatrixRecipe;

    open spec fn view(&self) -> MatrixRecipe {
        match self {
            MatrixSpec::SeededSymmetricTridiagonalV1 {
                dimension,
                boundary,
                off_diagonal,
                diagonal,
            } => {
                let (period_bits, fractional_bits, minimum, maximum) = match off_diagonal {
                    OffDiagonalValues::SeededPeriodicNegativeDyadicV1 {
                        period_bits,
                        fractional_bits,
                        minimum_magnitude_mantissa,
                        maximum_magnitude_mantissa,
                    } => (
                        *period_bits,
                        *fractional_bits,
                        *minimum_magnitude_mantissa,
                        *maximum_magnitude_mantissa,
                    ),
                };
                let margin = match diagonal {
                    DiagonalConstruction::AbsoluteRowSumPlusMarginV1 {
                        margin_mantissa,
                    } => *margin_mantissa,
                };
                MatrixRecipe::Tridiagonal {
                    dimension: *dimension,
                    boundary: *boundary,
                    period_bits,
                    fractional_bits,
                    minimum,
                    maximum,
                    margin,
                }
            },
            MatrixSpec::SeededSymmetricDiaLaplacianV1 {
                dimension,
                boundary,
                fractional_bits,
                diagonal_shift_mantissa,
                edge_diagonals,
            } => MatrixRecipe::DiaLaplacian {
                dimension: *dimension,
                boundary: *boundary,
                fractional_bits: *fractional_bits,
                shift: *diagonal_shift_mantissa,
                edges: edge_diagonals@,
            },
            MatrixSpec::SeededNonsymmetricRowSparseV1 {
                dimension,
                boundary,
                row_pattern_bits,
                maximum_half_bandwidth,
                maximum_nonzeros_per_row,
                fractional_bits,
                minimum_mantissa,
                maximum_mantissa,
            } => MatrixRecipe::RowSparse {
                dimension: *dimension,
                boundary: *boundary,
                row_pattern_bits: *row_pattern_bits,
                half_bandwidth: *maximum_half_bandwidth,
                row_width: *maximum_nonzeros_per_row,
                fractional_bits: *fractional_bits,
                minimum: *minimum_mantissa,
                maximum: *maximum_mantissa,
            },
        }
    }
}

impl MatrixRecipe {
    pub open spec fn dimension(self) -> u64 {
        match self {
            MatrixRecipe::Tridiagonal { dimension, .. } => dimension,
            MatrixRecipe::DiaLaplacian { dimension, .. } => dimension,
            MatrixRecipe::RowSparse { dimension, .. } => dimension,
        }
    }
}

impl Clone for MatrixSpec {
    fn clone(&self) -> (copy: Self)
        ensures
            copy@ == self@,
    {
        match self {
            MatrixSpec::SeededSymmetricTridiagonalV1 {
                dimension,
                boundary,
                off_diagonal,
                diagonal,
            } => MatrixSpec::SeededSymmetricTridiagonalV1 {
                dimension: *dimension,
                boundary: *boundary,
                off_diagonal: *off_diagonal,
                diagonal: *diagonal,
            },
            MatrixSpec::SeededSymmetricDiaLaplacianV1 {
                dimension,
                boundary,
                fractional_bits,
                diagonal_shift_mantissa,
                edge_diagonals,
            } => {
                let edges = vstd::slice::slice_to_vec(edge_diagonals.as_slice());
                MatrixSpec::SeededSymmetricDiaLaplacianV1 {
                    dimension: *dimension,
                    boundary: *boundary,
                    fractional_bits: *fractional_bits,
                    diagonal_shift_mantissa: *diagonal_shift_mantissa,
                    edge_diagonals: edges,
                }
            },
            MatrixSpec::SeededNonsymmetricRowSparseV1 {
                dimension,
                boundary,
                row_pattern_bits,
                maximum_half_bandwidth,
                maximum_nonzeros_per_row,
                fractional_bits,
                minimum_mantissa,
                maximum_mantissa,
            } => MatrixSpec::SeededNonsymmetricRowSparseV1 {
                dimension: *dimension,
                boundary: *boundary,
                row_pattern_bits: *row_pattern_bits,
                maximum_half_bandwidth: *maximum_half_bandwidth,
                maximum_nonzeros_per_row: *maximum_nonzeros_per_row,
                fractional_bits: *fractional_bits,
                minimum_mantissa: *minimum_mantissa,
                maximum_mantissa: *maximum_mantissa,
            },
        }
    }
}

impl MatrixSpec {
    pub fn dimension(&self) -> (dimension: u64)
        ensures
            dimension == self@.dimension(),
    {
        match self {
            MatrixSpec::SeededSymmetricTridiagonalV1 { dimension, .. } => *dimension,
            MatrixSpec::SeededSymmetricDiaLaplacianV1 { dimension, .. } => *dimension,
            MatrixSpec::SeededNonsymmetricRowSparseV1 { dimension, .. } => *dimension,
        }
    }
}

/// Registered right-hand-side construction families.
#[derive(Clone, Copy, Debug, PartialEq, Eq, Structural)]
pub enum RhsSpec {
    /// Sets `b = A*1`; for the symmetric families every entry is the dominance
    /// margin.
    ManufacturedOnesV1,
    SeededPeriodicDyadicV1 {
        period_bits: u8,
        fractional_bits: u8,
        minimum_mantissa: i64,
        maximum_mantissa: i64,
    },
}

/// Values that the validation layer must authenticate and report.
#[derive(Clone, Copy, Debug, PartialEq, Eq, Hash, Structural)]
pub enum RequestedOutput {
    SquaredL2ResidualV1,
}

/// Exact signed dyadic used by generated matrix and right-hand-side entries:
/// `mantissa / 2^fractional_bits`.
#[derive(Clone, Copy, Debug, PartialEq, Eq, Hash, Structural)]
pub struct Dyadic {
    pub mantissa: i64,
    pub fractional_bits: u8,
}

impl Dyadic {
    pub fn new(mantissa: i64, fractional_bits: u8) -> (value: Dyadic)
        ensures
            value == (Dyadic { mantissa, fractional_bits }),
    {
        Dyadic { mantissa, fractional_bits }
    }

    pub fn mantissa(self) -> (mantissa: i64)
        ensures
            mantissa == self.mantissa,
    {
        self.mantissa
    }

    pub fn fractional_bits(self) -> (fractional_bits: u8)
        ensures
            fractional_bits == self.fractional_bits,
    {
        self.fractional_bits
    }
}

/// Seed-free or literal-seeded problem description fixed before a challenge.
#[derive(Debug, PartialEq, Eq)]
pub struct ProblemTemplate {
    pub schema: TemplateSchema,
    pub randomness: TemplateRandomness,
    pub matrix: MatrixSpec,
    pub rhs: RhsSpec,
    pub requested_outputs: Vec<RequestedOutput>,
}

/// Complete, self-contained public problem statement.
#[derive(Debug, PartialEq, Eq)]
pub struct FinalizedProblem {
    pub schema: ProblemSchema,
    pub randomness: FinalizedRandomness,
    pub matrix: MatrixSpec,
    pub rhs: RhsSpec,
    pub requested_outputs: Vec<RequestedOutput>,
}

/// What a problem template says.
#[verifier::ext_equal]
pub struct TemplateModel {
    pub randomness: TemplateRandomnessModel,
    pub matrix: MatrixRecipe,
    pub rhs: RhsSpec,
    pub outputs: Seq<RequestedOutput>,
}

/// What a finalized problem says.
#[verifier::ext_equal]
pub struct ProblemModel {
    pub randomness: RandomnessModel,
    pub matrix: MatrixRecipe,
    pub rhs: RhsSpec,
    pub outputs: Seq<RequestedOutput>,
}

impl View for ProblemTemplate {
    type V = TemplateModel;

    open spec fn view(&self) -> TemplateModel {
        TemplateModel {
            randomness: self.randomness@,
            matrix: self.matrix@,
            rhs: self.rhs,
            outputs: self.requested_outputs@,
        }
    }
}

impl View for FinalizedProblem {
    type V = ProblemModel;

    open spec fn view(&self) -> ProblemModel {
        ProblemModel {
            randomness: self.randomness@,
            matrix: self.matrix@,
            rhs: self.rhs,
            outputs: self.requested_outputs@,
        }
    }
}

/// Why a problem document is refused or cannot be compiled.
#[derive(Clone, Copy, Debug, PartialEq, Eq)]
#[allow(inconsistent_fields)]
pub enum ProblemError {
    /// The dimension lies outside the supported interval.
    InvalidDimension { actual: u64 },
    /// The period exceeds the supported maximum.
    PeriodTooLarge { actual: u8 },
    /// The dyadic scale exceeds the supported maximum.
    FractionalBitsTooLarge { actual: u8 },
    /// Off-diagonal magnitudes must satisfy `1 <= minimum <= maximum`.
    InvalidOffDiagonalRange,
    /// The strict diagonal-dominance margin must be positive.
    ZeroDominanceMargin,
    /// Edge diagonals must be present, increasing, and inside the matrix.
    InvalidEdgeDiagonals,
    /// The requested row width does not fit the requested band.
    InvalidRowSparsity,
    /// A coefficient range must hold a nonzero value.
    InvalidCoefficientRange,
    /// A generated coefficient can exceed the exact binary64 limit.
    CoefficientTooLarge,
    /// The seeded right-hand-side minimum must not exceed the maximum.
    InvalidRhsRange,
    /// The seeded right-hand-side range is too wide for the unbiased sampler.
    RhsRangeTooWide,
    /// A generated right-hand side can exceed the exact binary64 limit.
    RhsMagnitudeTooLarge,
    /// The matrix family has no manufactured right-hand side.
    UnsupportedManufacturedRhs,
    /// An integer overflowed while the named quantity was derived.
    IntegerOverflow(&'static str),
    /// The squared residual must be requested exactly once.
    InvalidRequestedOutputs,
    /// More outputs are requested than are supported.
    TooManyRequestedOutputs { actual: usize },
    /// Literal randomness does not accept challenge-context bytes.
    UnexpectedChallengeContext,
    /// The operation requires literal template randomness.
    ExpectedLiteralRandomness,
    /// The operation requires challenge-derived randomness.
    ExpectedChallengeDerivedRandomness,
    /// The challenge context exceeds its byte limit.
    ChallengeContextTooLarge,
    /// The recorded template digest does not match the recomputed one.
    TemplateDigestMismatch { recorded: ProblemTemplateDigest, recomputed: ProblemTemplateDigest },
    /// The recorded context digest does not match the embedded bytes.
    ChallengeContextDigestMismatch,
    /// The recorded challenge-derived seed does not match the recomputed seed.
    DerivedSeedMismatch,
    /// The finalized context does not match the expected challenge bytes.
    UnexpectedFinalizedChallengeContext,
    /// The seeded word stream ended before the tables were filled.
    SeedStreamExhausted,
}

/// The refusal of a period and a dyadic scale, if any.
pub open spec fn period_and_scale_error(period_bits: u8, fractional_bits: u8) -> Option<
    ProblemError,
> {
    if period_bits > MAX_PERIOD_BITS {
        Some(ProblemError::PeriodTooLarge { actual: period_bits })
    } else if fractional_bits > MAX_FRACTIONAL_BITS {
        Some(ProblemError::FractionalBitsTooLarge { actual: fractional_bits })
    } else {
        None
    }
}

/// The refusal of a diagonal whose largest incident weight sum and margin are
/// given, if any.
pub open spec fn dominance_error(incident: nat, margin: u64) -> Option<ProblemError> {
    if incident + margin > u64::MAX {
        Some(ProblemError::IntegerOverflow("maximum diagonal mantissa"))
    } else if 2 * incident + margin > u64::MAX {
        Some(ProblemError::IntegerOverflow("maximum absolute row-sum mantissa"))
    } else if incident + margin > MAX_EXACT_BINARY64_MANTISSA {
        Some(ProblemError::CoefficientTooLarge)
    } else {
        None
    }
}

/// Twice the sum of the largest weights of the first `count` edge diagonals:
/// no row meets more edge weight than this.
pub open spec fn incident_bound(edges: Seq<SymmetricDiaEdge>, count: nat) -> nat
    decreases count,
{
    if count == 0 {
        0
    } else {
        incident_bound(edges, (count - 1) as nat) + 2 * edges[count
            - 1].maximum_weight_mantissa as nat
    }
}

/// The refusal of one edge diagonal, if any.
pub open spec fn edge_error(edges: Seq<SymmetricDiaEdge>, dimension: u64, index: int) -> Option<
    ProblemError,
> {
    let edge = edges[index];
    if edge.period_bits > MAX_PERIOD_BITS {
        Some(ProblemError::PeriodTooLarge { actual: edge.period_bits })
    } else if edge.positive_offset == 0 || edge.positive_offset >= dimension || (index > 0
        && edges[index - 1].positive_offset >= edge.positive_offset) {
        Some(ProblemError::InvalidEdgeDiagonals)
    } else if edge.minimum_weight_mantissa == 0 || edge.minimum_weight_mantissa
        > edge.maximum_weight_mantissa {
        Some(ProblemError::InvalidOffDiagonalRange)
    } else if incident_bound(edges, (index + 1) as nat) > u64::MAX {
        Some(ProblemError::IntegerOverflow("maximum diagonal mantissa"))
    } else {
        None
    }
}

/// The first refusal among the first `count` edge diagonals, if any.
pub open spec fn edges_error(edges: Seq<SymmetricDiaEdge>, dimension: u64, count: nat) -> Option<
    ProblemError,
>
    decreases count,
{
    if count == 0 {
        None
    } else {
        match edges_error(edges, dimension, (count - 1) as nat) {
            Some(error) => Some(error),
            None => edge_error(edges, dimension, count - 1),
        }
    }
}

/// Magnitude of a signed integer.
pub open spec fn magnitude(value: int) -> nat {
    if value < 0 {
        (-value) as nat
    } else {
        value as nat
    }
}

/// The refusal of a matrix specification, if any.
pub open spec fn matrix_error(matrix: MatrixRecipe) -> Option<ProblemError> {
    let dimension = matrix.dimension();
    if dimension < MIN_DIMENSION || dimension > MAX_DIMENSION {
        Some(ProblemError::InvalidDimension { actual: dimension })
    } else {
        match matrix {
            MatrixRecipe::Tridiagonal {
                period_bits,
                fractional_bits,
                minimum,
                maximum,
                margin,
                ..
            } => if let Some(error) = period_and_scale_error(period_bits, fractional_bits) {
                Some(error)
            } else if minimum == 0 || minimum > maximum {
                Some(ProblemError::InvalidOffDiagonalRange)
            } else if margin == 0 {
                Some(ProblemError::ZeroDominanceMargin)
            } else {
                dominance_error(2 * maximum as nat, margin)
            },
            MatrixRecipe::DiaLaplacian { fractional_bits, shift, edges, .. } => {
                if fractional_bits > MAX_FRACTIONAL_BITS {
                    Some(ProblemError::FractionalBitsTooLarge { actual: fractional_bits })
                } else if shift == 0 {
                    Some(ProblemError::ZeroDominanceMargin)
                } else if edges.len() == 0 || edges.len() > MAX_EDGE_DIAGONALS {
                    Some(ProblemError::InvalidEdgeDiagonals)
                } else if let Some(error) = edges_error(edges, dimension, edges.len()) {
                    Some(error)
                } else {
                    dominance_error(incident_bound(edges, edges.len()), shift)
                }
            },
            MatrixRecipe::RowSparse {
                row_pattern_bits,
                half_bandwidth,
                row_width,
                fractional_bits,
                minimum,
                maximum,
                ..
            } => if let Some(error) = period_and_scale_error(row_pattern_bits, fractional_bits) {
                Some(error)
            } else if half_bandwidth >= dimension || row_width == 0 || row_width - 1 > 2
                * half_bandwidth {
                Some(ProblemError::InvalidRowSparsity)
            } else if minimum > maximum || (minimum == 0 && maximum == 0) {
                Some(ProblemError::InvalidCoefficientRange)
            } else if magnitude(minimum as int) > MAX_EXACT_BINARY64_MANTISSA || magnitude(
                maximum as int,
            ) > MAX_EXACT_BINARY64_MANTISSA {
                Some(ProblemError::CoefficientTooLarge)
            } else {
                None
            },
        }
    }
}

/// The refusal of a right-hand-side specification, if any.
pub open spec fn rhs_error(rhs: RhsSpec) -> Option<ProblemError> {
    match rhs {
        RhsSpec::ManufacturedOnesV1 => None,
        RhsSpec::SeededPeriodicDyadicV1 {
            period_bits,
            fractional_bits,
            minimum_mantissa,
            maximum_mantissa,
        } => if let Some(error) = period_and_scale_error(period_bits, fractional_bits) {
            Some(error)
        } else if minimum_mantissa > maximum_mantissa {
            Some(ProblemError::InvalidRhsRange)
        } else if maximum_mantissa - minimum_mantissa + 1 > u64::MAX {
            Some(ProblemError::RhsRangeTooWide)
        } else if magnitude(minimum_mantissa as int) > MAX_EXACT_BINARY64_MANTISSA || magnitude(
            maximum_mantissa as int,
        ) > MAX_EXACT_BINARY64_MANTISSA {
            Some(ProblemError::RhsMagnitudeTooLarge)
        } else {
            None
        },
    }
}

/// The refusal of what templates and finalized problems share, if any.
pub open spec fn common_error(
    matrix: MatrixRecipe,
    rhs: RhsSpec,
    outputs: Seq<RequestedOutput>,
) -> Option<ProblemError> {
    if outputs.len() > MAX_REQUESTED_OUTPUTS {
        Some(ProblemError::TooManyRequestedOutputs { actual: outputs.len() as usize })
    } else if outputs != seq![RequestedOutput::SquaredL2ResidualV1] {
        Some(ProblemError::InvalidRequestedOutputs)
    } else if let Some(error) = matrix_error(matrix) {
        Some(error)
    } else {
        rhs_error(rhs)
    }
}

/// A check that gives the stated refusal, or succeeds where there is none.
pub open spec fn refuses<T, E>(result: Result<T, E>, refusal: Option<E>) -> bool {
    match refusal {
        Some(error) => result == Err::<T, E>(error),
        None => result is Ok,
    }
}

fn validate_period_and_scale(period_bits: u8, fractional_bits: u8) -> (result: Result<
    (),
    ProblemError,
>)
    ensures
        refuses(result, period_and_scale_error(period_bits, fractional_bits)),
{
    if period_bits > MAX_PERIOD_BITS {
        return Err(ProblemError::PeriodTooLarge { actual: period_bits });
    }
    if fractional_bits > MAX_FRACTIONAL_BITS {
        return Err(ProblemError::FractionalBitsTooLarge { actual: fractional_bits });
    }
    Ok(())
}

fn validate_dominance(incident: u64, margin: u64) -> (result: Result<(), ProblemError>)
    ensures
        refuses(result, dominance_error(incident as nat, margin)),
{
    let maximum_diagonal: u64 = match incident.checked_add(margin) {
        Some(value) => value,
        None => {
            return Err(ProblemError::IntegerOverflow("maximum diagonal mantissa"));
        },
    };
    if incident as u128 * 2 + margin as u128 > u64::MAX as u128 {
        return Err(ProblemError::IntegerOverflow("maximum absolute row-sum mantissa"));
    }
    if maximum_diagonal > MAX_EXACT_BINARY64_MANTISSA {
        return Err(ProblemError::CoefficientTooLarge);
    }
    Ok(())
}

proof fn lemma_edges_error_prefix(
    edges: Seq<SymmetricDiaEdge>,
    dimension: u64,
    fewer: nat,
    count: nat,
)
    requires
        fewer <= count,
    ensures
        edges_error(edges, dimension, fewer) is Some ==> edges_error(edges, dimension, count)
            == edges_error(edges, dimension, fewer),
    decreases count,
{
    if fewer < count {
        lemma_edges_error_prefix(edges, dimension, fewer, (count - 1) as nat);
    }
}

/// Checks the edge diagonals and returns their incident weight bound.
fn validate_edges(edges: &Vec<SymmetricDiaEdge>, dimension: u64) -> (result: Result<
    u64,
    ProblemError,
>)
    ensures
        refuses(result, edges_error(edges@, dimension, edges@.len())),
        result matches Ok(incident) ==> incident == incident_bound(edges@, edges@.len()),
{
    let mut incident: u64 = 0;
    let mut index: usize = 0;
    while index < edges.len()
        invariant
            index <= edges@.len(),
            edges_error(edges@, dimension, index as nat) is None,
            incident == incident_bound(edges@, index as nat),
        decreases edges@.len() - index,
    {
        let edge = edges[index];
        let ghost refusal = edge_error(edges@, dimension, index as int);
        proof {
            assert(edges_error(edges@, dimension, (index + 1) as nat) == refusal);
            lemma_edges_error_prefix(edges@, dimension, (index + 1) as nat, edges@.len());
        }
        if edge.period_bits > MAX_PERIOD_BITS {
            return Err(ProblemError::PeriodTooLarge { actual: edge.period_bits });
        }
        if edge.positive_offset == 0 || edge.positive_offset >= dimension || (index > 0 && edges[index
            - 1].positive_offset >= edge.positive_offset) {
            return Err(ProblemError::InvalidEdgeDiagonals);
        }
        if edge.minimum_weight_mantissa == 0 || edge.minimum_weight_mantissa
            > edge.maximum_weight_mantissa {
            return Err(ProblemError::InvalidOffDiagonalRange);
        }
        let total: u128 = incident as u128 + 2 * edge.maximum_weight_mantissa as u128;
        if total > u64::MAX as u128 {
            return Err(ProblemError::IntegerOverflow("maximum diagonal mantissa"));
        }
        incident = total as u64;
        index = index + 1;
    }
    Ok(incident)
}

pub(crate) fn unsigned_magnitude(value: i64) -> (result: u64)
    ensures
        result == magnitude(value as int),
{
    if value < 0 {
        (-(value as i128)) as u64
    } else {
        value as u64
    }
}

fn validate_matrix(matrix: &MatrixSpec) -> (result: Result<(), ProblemError>)
    ensures
        refuses(result, matrix_error(matrix@)),
{
    let dimension: u64 = matrix.dimension();
    if dimension < MIN_DIMENSION || dimension > MAX_DIMENSION {
        return Err(ProblemError::InvalidDimension { actual: dimension });
    }
    match matrix {
        MatrixSpec::SeededSymmetricTridiagonalV1 { off_diagonal, diagonal, .. } => {
            let OffDiagonalValues::SeededPeriodicNegativeDyadicV1 {
                period_bits,
                fractional_bits,
                minimum_magnitude_mantissa: minimum,
                maximum_magnitude_mantissa: maximum,
            } = *off_diagonal;
            let DiagonalConstruction::AbsoluteRowSumPlusMarginV1 { margin_mantissa: margin } =
                *diagonal;
            if let Err(error) = validate_period_and_scale(period_bits, fractional_bits) {
                return Err(error);
            }
            if minimum == 0 || minimum > maximum {
                return Err(ProblemError::InvalidOffDiagonalRange);
            }
            if margin == 0 {
                return Err(ProblemError::ZeroDominanceMargin);
            }
            let incident: u64 = match maximum.checked_mul(2) {
                Some(value) => value,
                None => {
                    return Err(ProblemError::IntegerOverflow("maximum diagonal mantissa"));
                },
            };
            validate_dominance(incident, margin)
        },
        MatrixSpec::SeededSymmetricDiaLaplacianV1 {
            fractional_bits,
            diagonal_shift_mantissa,
            edge_diagonals,
            ..
        } => {
            if *fractional_bits > MAX_FRACTIONAL_BITS {
                return Err(ProblemError::FractionalBitsTooLarge { actual: *fractional_bits });
            }
            if *diagonal_shift_mantissa == 0 {
                return Err(ProblemError::ZeroDominanceMargin);
            }
            if edge_diagonals.len() == 0 || edge_diagonals.len() > MAX_EDGE_DIAGONALS {
                return Err(ProblemError::InvalidEdgeDiagonals);
            }
            match validate_edges(edge_diagonals, dimension) {
                Ok(incident) => validate_dominance(incident, *diagonal_shift_mantissa),
                Err(error) => Err(error),
            }
        },
        MatrixSpec::SeededNonsymmetricRowSparseV1 {
            row_pattern_bits,
            maximum_half_bandwidth,
            maximum_nonzeros_per_row,
            fractional_bits,
            minimum_mantissa,
            maximum_mantissa,
            ..
        } => {
            if let Err(error) = validate_period_and_scale(*row_pattern_bits, *fractional_bits) {
                return Err(error);
            }
            if *maximum_half_bandwidth >= dimension || *maximum_nonzeros_per_row == 0 || (
            *maximum_nonzeros_per_row - 1) as u64 > 2 * *maximum_half_bandwidth {
                return Err(ProblemError::InvalidRowSparsity);
            }
            if *minimum_mantissa > *maximum_mantissa || (*minimum_mantissa == 0
                && *maximum_mantissa == 0) {
                return Err(ProblemError::InvalidCoefficientRange);
            }
            if unsigned_magnitude(*minimum_mantissa) > MAX_EXACT_BINARY64_MANTISSA
                || unsigned_magnitude(*maximum_mantissa) > MAX_EXACT_BINARY64_MANTISSA {
                return Err(ProblemError::CoefficientTooLarge);
            }
            Ok(())
        },
    }
}

fn validate_rhs(rhs: RhsSpec) -> (result: Result<(), ProblemError>)
    ensures
        refuses(result, rhs_error(rhs)),
{
    match rhs {
        RhsSpec::ManufacturedOnesV1 => Ok(()),
        RhsSpec::SeededPeriodicDyadicV1 {
            period_bits,
            fractional_bits,
            minimum_mantissa,
            maximum_mantissa,
        } => {
            if let Err(error) = validate_period_and_scale(period_bits, fractional_bits) {
                return Err(error);
            }
            if minimum_mantissa > maximum_mantissa {
                return Err(ProblemError::InvalidRhsRange);
            }
            let width: i128 = maximum_mantissa as i128 - minimum_mantissa as i128 + 1;
            if width > u64::MAX as i128 {
                return Err(ProblemError::RhsRangeTooWide);
            }
            if unsigned_magnitude(minimum_mantissa) > MAX_EXACT_BINARY64_MANTISSA
                || unsigned_magnitude(maximum_mantissa) > MAX_EXACT_BINARY64_MANTISSA {
                return Err(ProblemError::RhsMagnitudeTooLarge);
            }
            Ok(())
        },
    }
}

fn validate_common(
    matrix: &MatrixSpec,
    rhs: RhsSpec,
    requested_outputs: &Vec<RequestedOutput>,
) -> (result: Result<(), ProblemError>)
    ensures
        refuses(result, common_error(matrix@, rhs, requested_outputs@)),
{
    if requested_outputs.len() > MAX_REQUESTED_OUTPUTS {
        return Err(ProblemError::TooManyRequestedOutputs { actual: requested_outputs.len() });
    }
    if requested_outputs.len() != 1 {
        assert(requested_outputs@ != seq![RequestedOutput::SquaredL2ResidualV1]);
        return Err(ProblemError::InvalidRequestedOutputs);
    }
    assert(requested_outputs@ =~= seq![RequestedOutput::SquaredL2ResidualV1]);
    if let Err(error) = validate_matrix(matrix) {
        return Err(error);
    }
    validate_rhs(rhs)
}

/// Canonical bytes of one edge diagonal.
pub open spec fn edge_encoding(edge: SymmetricDiaEdge) -> Seq<u8> {
    bytes::be_bytes(edge.positive_offset as nat, 8) + bytes::be_bytes(edge.period_bits as nat, 1)
        + bytes::be_bytes(edge.minimum_weight_mantissa as nat, 8) + bytes::be_bytes(
        edge.maximum_weight_mantissa as nat,
        8,
    )
}

/// Canonical bytes of a list of edge diagonals, without its count.
pub open spec fn edges_encoding(edges: Seq<SymmetricDiaEdge>) -> Seq<u8>
    decreases edges.len(),
{
    if edges.len() == 0 {
        Seq::empty()
    } else {
        edges_encoding(edges.drop_last()) + edge_encoding(edges.last())
    }
}

/// Canonical bytes of a matrix specification.
pub open spec fn matrix_encoding(matrix: MatrixRecipe) -> Seq<u8> {
    match matrix {
        MatrixRecipe::Tridiagonal {
            dimension,
            period_bits,
            fractional_bits,
            minimum,
            maximum,
            margin,
            ..
        } => bytes::be_bytes(1, 2) + bytes::be_bytes(dimension as nat, 8) + bytes::be_bytes(1, 2)
            + bytes::be_bytes(1, 2) + bytes::be_bytes(period_bits as nat, 1) + bytes::be_bytes(
            fractional_bits as nat,
            1,
        ) + bytes::be_bytes(minimum as nat, 8) + bytes::be_bytes(maximum as nat, 8)
            + bytes::be_bytes(1, 2) + bytes::be_bytes(margin as nat, 8),
        MatrixRecipe::DiaLaplacian { dimension, fractional_bits, shift, edges, .. } => {
            bytes::be_bytes(2, 2) + bytes::be_bytes(dimension as nat, 8) + bytes::be_bytes(1, 2)
                + bytes::be_bytes(fractional_bits as nat, 1) + bytes::be_bytes(shift as nat, 8)
                + bytes::be_bytes(edges.len(), 8) + edges_encoding(edges)
        },
        MatrixRecipe::RowSparse {
            dimension,
            row_pattern_bits,
            half_bandwidth,
            row_width,
            fractional_bits,
            minimum,
            maximum,
            ..
        } => bytes::be_bytes(3, 2) + bytes::be_bytes(dimension as nat, 8) + bytes::be_bytes(1, 2)
            + bytes::be_bytes(row_pattern_bits as nat, 1) + bytes::be_bytes(
            half_bandwidth as nat,
            8,
        ) + bytes::be_bytes(row_width as nat, 1) + bytes::be_bytes(fractional_bits as nat, 1)
            + bytes::be_bytes(bytes::twos_complement_64(minimum), 8) + bytes::be_bytes(
            bytes::twos_complement_64(maximum),
            8,
        ),
    }
}

/// Canonical bytes of a right-hand-side specification.
pub open spec fn rhs_encoding(rhs: RhsSpec) -> Seq<u8> {
    match rhs {
        RhsSpec::ManufacturedOnesV1 => bytes::be_bytes(1, 2),
        RhsSpec::SeededPeriodicDyadicV1 {
            period_bits,
            fractional_bits,
            minimum_mantissa,
            maximum_mantissa,
        } => bytes::be_bytes(2, 2) + bytes::be_bytes(period_bits as nat, 1) + bytes::be_bytes(
            fractional_bits as nat,
            1,
        ) + bytes::be_bytes(bytes::twos_complement_64(minimum_mantissa), 8) + bytes::be_bytes(
            bytes::twos_complement_64(maximum_mantissa),
            8,
        ),
    }
}

/// Canonical bytes of a list of requested outputs, behind its count.
pub open spec fn outputs_encoding(outputs: Seq<RequestedOutput>) -> Seq<u8> {
    bytes::be_bytes(outputs.len() % 0x1_0000_0000, 4) + outputs_tags(outputs.len())
}

/// The tags of `count` requested outputs.
pub open spec fn outputs_tags(count: nat) -> Seq<u8>
    decreases count,
{
    if count == 0 {
        Seq::empty()
    } else {
        outputs_tags((count - 1) as nat) + bytes::be_bytes(1, 2)
    }
}

/// Canonical bytes of a problem template.
pub open spec fn template_encoding(template: TemplateModel) -> Seq<u8> {
    bytes::be_bytes(1, 2) + randomness::policy_encoding(template.randomness) + matrix_encoding(
        template.matrix,
    ) + rhs_encoding(template.rhs) + outputs_encoding(template.outputs)
}

/// Canonical bytes of a finalized problem.
pub open spec fn problem_encoding(problem: ProblemModel) -> Seq<u8> {
    bytes::be_bytes(1, 2) + randomness::randomness_encoding(problem.randomness) + matrix_encoding(
        problem.matrix,
    ) + rhs_encoding(problem.rhs) + outputs_encoding(problem.outputs)
}

impl CanonicalEncode for SymmetricDiaEdge {
    open spec fn encoding(&self) -> Seq<u8> {
        edge_encoding(*self)
    }

    fn encode(&self, encoder: &mut Encoder) {
        encoder.write_u64(self.positive_offset);
        encoder.write_u8(self.period_bits);
        encoder.write_u64(self.minimum_weight_mantissa);
        encoder.write_u64(self.maximum_weight_mantissa);
        assert(encoder@ =~= old(encoder)@ + self.encoding());
    }
}

fn encode_edges(edges: &Vec<SymmetricDiaEdge>, encoder: &mut Encoder)
    ensures
        final(encoder)@ == old(encoder)@ + edges_encoding(edges@),
{
    let ghost start = encoder@;
    let mut index: usize = 0;
    proof {
        assert(edges@.take(0) =~= Seq::<SymmetricDiaEdge>::empty());
        assert(encoder@ =~= start + edges_encoding(edges@.take(0)));
    }
    while index < edges.len()
        invariant
            index <= edges@.len(),
            encoder@ == start + edges_encoding(edges@.take(index as int)),
        decreases edges@.len() - index,
    {
        edges[index].encode(encoder);
        proof {
            let next = edges@.take(index + 1);
            assert(next.drop_last() =~= edges@.take(index as int));
            assert(encoder@ =~= start + edges_encoding(next));
        }
        index = index + 1;
    }
    assert(edges@.take(index as int) =~= edges@);
}

fn encode_outputs(outputs: &Vec<RequestedOutput>, encoder: &mut Encoder)
    ensures
        final(encoder)@ == old(encoder)@ + outputs_encoding(outputs@),
{
    let ghost start = encoder@;
    encoder.write_u32((outputs.len() as u64 % 0x1_0000_0000) as u32);
    let ghost counted = encoder@;
    let mut index: usize = 0;
    assert(encoder@ =~= counted + outputs_tags(0));
    while index < outputs.len()
        invariant
            index <= outputs@.len(),
            encoder@ == counted + outputs_tags(index as nat),
        decreases outputs@.len() - index,
    {
        match outputs[index] {
            RequestedOutput::SquaredL2ResidualV1 => encoder.write_u16(1),
        }
        assert(encoder@ =~= counted + outputs_tags((index + 1) as nat));
        index = index + 1;
    }
    assert(encoder@ =~= start + outputs_encoding(outputs@));
}

impl CanonicalEncode for BoundaryRule {
    open spec fn encoding(&self) -> Seq<u8> {
        bytes::be_bytes(1, 2)
    }

    fn encode(&self, encoder: &mut Encoder) {
        match self {
            BoundaryRule::TruncateV1 => encoder.write_u16(1),
        }
    }
}

impl CanonicalEncode for MatrixSpec {
    open spec fn encoding(&self) -> Seq<u8> {
        matrix_encoding(self@)
    }

    fn encode(&self, encoder: &mut Encoder) {
        match self {
            MatrixSpec::SeededSymmetricTridiagonalV1 {
                dimension,
                boundary,
                off_diagonal,
                diagonal,
            } => {
                let OffDiagonalValues::SeededPeriodicNegativeDyadicV1 {
                    period_bits,
                    fractional_bits,
                    minimum_magnitude_mantissa,
                    maximum_magnitude_mantissa,
                } = *off_diagonal;
                let DiagonalConstruction::AbsoluteRowSumPlusMarginV1 { margin_mantissa } =
                    *diagonal;
                encoder.write_u16(1);
                encoder.write_u64(*dimension);
                boundary.encode(encoder);
                encoder.write_u16(1);
                encoder.write_u8(period_bits);
                encoder.write_u8(fractional_bits);
                encoder.write_u64(minimum_magnitude_mantissa);
                encoder.write_u64(maximum_magnitude_mantissa);
                encoder.write_u16(1);
                encoder.write_u64(margin_mantissa);
            },
            MatrixSpec::SeededSymmetricDiaLaplacianV1 {
                dimension,
                boundary,
                fractional_bits,
                diagonal_shift_mantissa,
                edge_diagonals,
            } => {
                encoder.write_u16(2);
                encoder.write_u64(*dimension);
                boundary.encode(encoder);
                encoder.write_u8(*fractional_bits);
                encoder.write_u64(*diagonal_shift_mantissa);
                encoder.write_u64(edge_diagonals.len() as u64);
                encode_edges(edge_diagonals, encoder);
            },
            MatrixSpec::SeededNonsymmetricRowSparseV1 {
                dimension,
                boundary,
                row_pattern_bits,
                maximum_half_bandwidth,
                maximum_nonzeros_per_row,
                fractional_bits,
                minimum_mantissa,
                maximum_mantissa,
            } => {
                encoder.write_u16(3);
                encoder.write_u64(*dimension);
                boundary.encode(encoder);
                encoder.write_u8(*row_pattern_bits);
                encoder.write_u64(*maximum_half_bandwidth);
                encoder.write_u8(*maximum_nonzeros_per_row);
                encoder.write_u8(*fractional_bits);
                encoder.write_i64(*minimum_mantissa);
                encoder.write_i64(*maximum_mantissa);
            },
        }
        assert(encoder@ =~= old(encoder)@ + self.encoding());
    }
}

impl CanonicalEncode for RhsSpec {
    open spec fn encoding(&self) -> Seq<u8> {
        rhs_encoding(*self)
    }

    fn encode(&self, encoder: &mut Encoder) {
        match self {
            RhsSpec::ManufacturedOnesV1 => encoder.write_u16(1),
            RhsSpec::SeededPeriodicDyadicV1 {
                period_bits,
                fractional_bits,
                minimum_mantissa,
                maximum_mantissa,
            } => {
                encoder.write_u16(2);
                encoder.write_u8(*period_bits);
                encoder.write_u8(*fractional_bits);
                encoder.write_i64(*minimum_mantissa);
                encoder.write_i64(*maximum_mantissa);
            },
        }
        assert(encoder@ =~= old(encoder)@ + self.encoding());
    }
}

impl CanonicalEncode for ProblemTemplate {
    open spec fn encoding(&self) -> Seq<u8> {
        template_encoding(self@)
    }

    fn encode(&self, encoder: &mut Encoder) {
        match self.schema {
            TemplateSchema::V1 => encoder.write_u16(1),
        }
        self.randomness.encode(encoder);
        self.matrix.encode(encoder);
        self.rhs.encode(encoder);
        encode_outputs(&self.requested_outputs, encoder);
        assert(encoder@ =~= old(encoder)@ + self.encoding());
    }
}

impl CanonicalEncode for FinalizedProblem {
    open spec fn encoding(&self) -> Seq<u8> {
        problem_encoding(self@)
    }

    fn encode(&self, encoder: &mut Encoder) {
        match self.schema {
            ProblemSchema::V1 => encoder.write_u16(1),
        }
        self.randomness.encode(encoder);
        self.matrix.encode(encoder);
        self.rhs.encode(encoder);
        encode_outputs(&self.requested_outputs, encoder);
        assert(encoder@ =~= old(encoder)@ + self.encoding());
    }
}

/// Digest of the complete finalized public matrix and right-hand-side recipe.
#[derive(Clone, Copy, Debug, PartialEq, Eq, Hash)]
pub struct ProblemDigest {
    digest: Digest,
}

impl View for ProblemDigest {
    type V = Seq<u8>;

    closed spec fn view(&self) -> Seq<u8> {
        self.digest@
    }
}

impl ProblemDigest {
    pub fn from_bytes(bytes: [u8; 32]) -> (digest: ProblemDigest)
        ensures
            digest@ == bytes@,
    {
        ProblemDigest { digest: Digest::from_bytes(bytes) }
    }

    pub fn as_bytes(&self) -> (bytes: &[u8; 32])
        ensures
            bytes@ == self@,
    {
        self.digest.as_bytes()
    }

    pub fn into_bytes(self) -> (bytes: [u8; 32])
        ensures
            bytes@ == self@,
    {
        self.digest.into_bytes()
    }

    /// The lowercase hexadecimal spelling.
    pub fn to_hex(&self) -> (spelling: String)
        ensures
            spelling@ == text::hex_text(self@),
    {
        self.digest.to_hex()
    }

    /// Reads exactly 64 lowercase hexadecimal characters.
    pub fn from_hex(spelling: &str) -> (result: Option<ProblemDigest>)
        ensures
            (match result {
                Some(found) => spelling@ == text::hex_text(found@),
                None => forall|bytes: Seq<u8>|
                    bytes.len() == 32 ==> spelling@ != #[trigger] text::hex_text(bytes),
            }),
    {
        match text::parse_hex_32(spelling) {
            Some(bytes) => Some(ProblemDigest { digest: Digest::from_bytes(bytes) }),
            None => None,
        }
    }
}

/// The digest of a template.
pub open spec fn template_digest(template: TemplateModel) -> Seq<u8> {
    canonical::domain_digest(
        vstd::utf8::encode_utf8(TEMPLATE_DIGEST_DOMAIN@),
        template_encoding(template),
    )
}

/// The digest of a finalized problem.
pub open spec fn problem_digest(problem: ProblemModel) -> Seq<u8> {
    canonical::domain_digest(
        vstd::utf8::encode_utf8(PROBLEM_DIGEST_DOMAIN@),
        problem_encoding(problem),
    )
}

impl TemplateModel {
    /// The refusal of the template, if any.
    pub open spec fn error(self) -> Option<ProblemError> {
        common_error(self.matrix, self.rhs, self.outputs)
    }
}

impl ProblemModel {
    /// The template that the problem was finalized from.
    pub open spec fn template(self) -> TemplateModel {
        TemplateModel {
            randomness: self.randomness.policy(),
            matrix: self.matrix,
            rhs: self.rhs,
            outputs: self.outputs,
        }
    }

    /// The refusal of the problem, if any.
    pub open spec fn error(self) -> Option<ProblemError> {
        if let Some(error) = common_error(self.matrix, self.rhs, self.outputs) {
            Some(error)
        } else {
            match self.randomness {
                RandomnessModel::Literal { .. } => None,
                RandomnessModel::ChallengeDerived {
                    template_digest: recorded,
                    context,
                    context_digest,
                    seed,
                    ..
                } => {
                    let recomputed = template_digest(self.template());
                    if recorded != recomputed {
                        Some(
                            ProblemError::TemplateDigestMismatch {
                                recorded: randomness::template_digest_of(recorded),
                                recomputed: randomness::template_digest_of(recomputed),
                            },
                        )
                    } else if context.len() > MAX_CHALLENGE_CONTEXT_BYTES {
                        Some(ProblemError::ChallengeContextTooLarge)
                    } else if context_digest != randomness::context_digest_bytes(context) {
                        Some(ProblemError::ChallengeContextDigestMismatch)
                    } else if seed != randomness::instance_seed_bytes(recorded, context) {
                        Some(ProblemError::DerivedSeedMismatch)
                    } else {
                        None
                    }
                },
            }
        }
    }
}

/// What finalizing a template under a challenge context gives.
pub open spec fn finalized(template: TemplateModel, context: Seq<u8>) -> Result<
    ProblemModel,
    ProblemError,
> {
    if let Some(error) = template.error() {
        Err(error)
    } else {
        match template.randomness {
            TemplateRandomnessModel::Literal { seed } => if context.len() != 0 {
                Err(ProblemError::UnexpectedChallengeContext)
            } else {
                Ok(
                    ProblemModel {
                        randomness: RandomnessModel::Literal { seed },
                        matrix: template.matrix,
                        rhs: template.rhs,
                        outputs: template.outputs,
                    },
                )
            },
            TemplateRandomnessModel::ChallengeDerived { derivation } => if context.len()
                > MAX_CHALLENGE_CONTEXT_BYTES {
                Err(ProblemError::ChallengeContextTooLarge)
            } else {
                let digest = template_digest(template);
                Ok(
                    ProblemModel {
                        randomness: RandomnessModel::ChallengeDerived {
                            derivation,
                            template_digest: digest,
                            context,
                            context_digest: randomness::context_digest_bytes(context),
                            seed: randomness::instance_seed_bytes(digest, context),
                        },
                        matrix: template.matrix,
                        rhs: template.rhs,
                        outputs: template.outputs,
                    },
                )
            },
        }
    }
}

/// A result whose success shows the given value and whose failure is the given
/// error.
pub open spec fn yields<T: View, E>(result: Result<T, E>, expected: Result<T::V, E>) -> bool {
    match expected {
        Ok(value) => result matches Ok(found) && found@ == value,
        Err(error) => result matches Err(found) && found == error,
    }
}

fn copy_outputs(outputs: &Vec<RequestedOutput>) -> (copy: Vec<RequestedOutput>)
    ensures
        copy@ == outputs@,
{
    vstd::slice::slice_to_vec(outputs.as_slice())
}

impl Clone for ProblemTemplate {
    fn clone(&self) -> (copy: Self)
        ensures
            copy@ == self@,
    {
        ProblemTemplate {
            schema: self.schema,
            randomness: self.randomness,
            matrix: self.matrix.clone(),
            rhs: self.rhs,
            requested_outputs: copy_outputs(&self.requested_outputs),
        }
    }
}

impl Clone for FinalizedProblem {
    fn clone(&self) -> (copy: Self)
        ensures
            copy@ == self@,
    {
        FinalizedProblem {
            schema: self.schema,
            randomness: self.randomness.clone(),
            matrix: self.matrix.clone(),
            rhs: self.rhs,
            requested_outputs: copy_outputs(&self.requested_outputs),
        }
    }
}

impl ProblemTemplate {
    pub fn dimension(&self) -> (dimension: u64)
        ensures
            dimension == self@.matrix.dimension(),
    {
        self.matrix.dimension()
    }

    pub fn validate(&self) -> (result: Result<(), ProblemError>)
        ensures
            refuses(result, self@.error()),
    {
        validate_common(&self.matrix, self.rhs, &self.requested_outputs)
    }

    pub fn digest(&self) -> (result: Result<ProblemTemplateDigest, ProblemError>)
        ensures
            refuses(result, self@.error()),
            result matches Ok(digest) ==> digest@ == template_digest(self@),
    {
        if let Err(error) = self.validate() {
            return Err(error);
        }
        let encoded = encode_to_vec(self);
        Ok(
            ProblemTemplateDigest::from_digest(
                domain_separated_digest(TEMPLATE_DIGEST_DOMAIN.as_bytes(), encoded.as_slice()),
            ),
        )
    }

    /// Finalizes according to the template policy. Literal templates require an
    /// empty context; challenge-derived templates embed and bind the supplied
    /// bytes.
    pub fn finalize(&self, challenge_context: &[u8]) -> (result: Result<
        FinalizedProblem,
        ProblemError,
    >)
        ensures
            yields(result, finalized(self@, challenge_context@)),
    {
        if let Err(error) = self.validate() {
            return Err(error);
        }
        let randomness = match self.randomness {
            TemplateRandomness::LiteralV1 { seed } => {
                if challenge_context.len() != 0 {
                    return Err(ProblemError::UnexpectedChallengeContext);
                }
                FinalizedRandomness::LiteralV1 { seed }
            },
            TemplateRandomness::ChallengeDerivedV1 { derivation } => {
                if challenge_context.len() > MAX_CHALLENGE_CONTEXT_BYTES {
                    return Err(ProblemError::ChallengeContextTooLarge);
                }
                let template_digest = match self.digest() {
                    Ok(digest) => digest,
                    Err(error) => {
                        return Err(error);
                    },
                };
                let seed = derive_instance_seed(template_digest, challenge_context);
                let canonical_bytes = match CanonicalContextBytes::new(
                    bytes::copy_bytes(challenge_context),
                ) {
                    Ok(canonical_bytes) => canonical_bytes,
                    Err(_) => {
                        return Err(ProblemError::ChallengeContextTooLarge);
                    },
                };
                FinalizedRandomness::ChallengeDerivedV1 {
                    derivation,
                    template_digest,
                    challenge_context: ChallengeContext::EmbeddedV1 { canonical_bytes },
                    challenge_context_digest: challenge_context_digest(challenge_context),
                    seed,
                }
            },
        };
        let problem = FinalizedProblem {
            schema: ProblemSchema::V1,
            randomness,
            matrix: self.matrix.clone(),
            rhs: self.rhs,
            requested_outputs: copy_outputs(&self.requested_outputs),
        };
        proof {
            finalization_is_consistent(self@, challenge_context@);
        }
        match problem.validate() {
            Ok(()) => Ok(problem),
            Err(error) => Err(error),
        }
    }

    pub fn finalize_literal(&self) -> (result: Result<FinalizedProblem, ProblemError>)
        ensures
            self@.randomness is Literal ==> yields(result, finalized(self@, Seq::empty())),
            !(self@.randomness is Literal) ==> result == Err::<FinalizedProblem, ProblemError>(
                ProblemError::ExpectedLiteralRandomness,
            ),
    {
        if !matches!(self.randomness, TemplateRandomness::LiteralV1 { .. }) {
            return Err(ProblemError::ExpectedLiteralRandomness);
        }
        let empty: Vec<u8> = Vec::new();
        self.finalize(empty.as_slice())
    }

    pub fn finalize_with_challenge_context(&self, challenge_context: &[u8]) -> (result: Result<
        FinalizedProblem,
        ProblemError,
    >)
        ensures
            self@.randomness is ChallengeDerived ==> yields(
                result,
                finalized(self@, challenge_context@),
            ),
            !(self@.randomness is ChallengeDerived) ==> result == Err::<
                FinalizedProblem,
                ProblemError,
            >(ProblemError::ExpectedChallengeDerivedRandomness),
    {
        if !matches!(self.randomness, TemplateRandomness::ChallengeDerivedV1 { .. }) {
            return Err(ProblemError::ExpectedChallengeDerivedRandomness);
        }
        self.finalize(challenge_context)
    }
}

impl FinalizedProblem {
    pub fn dimension(&self) -> (dimension: u64)
        ensures
            dimension == self@.matrix.dimension(),
    {
        self.matrix.dimension()
    }

    pub fn randomness(&self) -> (randomness: &FinalizedRandomness)
        ensures
            randomness@ == self@.randomness,
    {
        &self.randomness
    }

    pub fn instance_seed(&self) -> (seed: InstanceSeed)
        ensures
            seed@ == self@.randomness.seed(),
    {
        self.randomness.instance_seed()
    }

    /// Reconstructs the exact pre-finalization template whose digest is bound
    /// into a challenge-derived record.
    pub fn template(&self) -> (template: ProblemTemplate)
        ensures
            template@ == self@.template(),
    {
        let randomness = match &self.randomness {
            FinalizedRandomness::LiteralV1 { seed } => TemplateRandomness::LiteralV1 {
                seed: *seed,
            },
            FinalizedRandomness::ChallengeDerivedV1 { derivation, .. } => {
                TemplateRandomness::ChallengeDerivedV1 { derivation: *derivation }
            },
        };
        ProblemTemplate {
            schema: TemplateSchema::V1,
            randomness,
            matrix: self.matrix.clone(),
            rhs: self.rhs,
            requested_outputs: copy_outputs(&self.requested_outputs),
        }
    }

    pub fn validate(&self) -> (result: Result<(), ProblemError>)
        ensures
            refuses(result, self@.error()),
    {
        if let Err(error) = validate_common(&self.matrix, self.rhs, &self.requested_outputs) {
            return Err(error);
        }
        match &self.randomness {
            FinalizedRandomness::LiteralV1 { .. } => Ok(()),
            FinalizedRandomness::ChallengeDerivedV1 {
                template_digest: recorded,
                challenge_context,
                challenge_context_digest: recorded_context_digest,
                seed,
                ..
            } => {
                let recomputed = match self.template().digest() {
                    Ok(digest) => digest,
                    Err(error) => {
                        return Err(error);
                    },
                };
                proof {
                    randomness::lemma_template_digest_of(*recorded);
                    randomness::lemma_template_digest_of(recomputed);
                }
                if !bytes::same_bytes(
                    recorded.as_bytes().as_slice(),
                    recomputed.as_bytes().as_slice(),
                ) {
                    return Err(
                        ProblemError::TemplateDigestMismatch { recorded: *recorded, recomputed },
                    );
                }
                let context = challenge_context.canonical_bytes();
                if context.len() > MAX_CHALLENGE_CONTEXT_BYTES {
                    return Err(ProblemError::ChallengeContextTooLarge);
                }
                if !recorded_context_digest.equals(&challenge_context_digest(context)) {
                    return Err(ProblemError::ChallengeContextDigestMismatch);
                }
                if !bytes::same_bytes(
                    seed.as_bytes().as_slice(),
                    derive_instance_seed(*recorded, context).as_bytes().as_slice(),
                ) {
                    return Err(ProblemError::DerivedSeedMismatch);
                }
                Ok(())
            },
        }
    }

    /// Application-layer check used before accepting a service-issued context.
    pub fn verify_challenge_context(&self, expected: &[u8]) -> (result: Result<(), ProblemError>)
        ensures
            (match self@.randomness {
                RandomnessModel::Literal { .. } => result == Err::<(), ProblemError>(
                    ProblemError::ExpectedChallengeDerivedRandomness,
                ),
                RandomnessModel::ChallengeDerived { context, .. } => if context != expected@ {
                    result == Err::<(), ProblemError>(
                        ProblemError::UnexpectedFinalizedChallengeContext,
                    )
                } else {
                    refuses(result, self@.error())
                },
            }),
    {
        let recorded = match self.randomness.challenge_context() {
            Some(recorded) => recorded,
            None => {
                return Err(ProblemError::ExpectedChallengeDerivedRandomness);
            },
        };
        if !bytes::same_bytes(recorded.canonical_bytes(), expected) {
            return Err(ProblemError::UnexpectedFinalizedChallengeContext);
        }
        self.validate()
    }

    pub fn digest(&self) -> (result: Result<ProblemDigest, ProblemError>)
        ensures
            refuses(result, self@.error()),
            result matches Ok(digest) ==> digest@ == problem_digest(self@),
    {
        if let Err(error) = self.validate() {
            return Err(error);
        }
        let encoded = encode_to_vec(self);
        Ok(
            ProblemDigest {
                digest: domain_separated_digest(
                    PROBLEM_DIGEST_DOMAIN.as_bytes(),
                    encoded.as_slice(),
                ),
            },
        )
    }
}

/// What finalization records, validation recomputes: a finalized problem is
/// valid, and it shows the template and the context that it came from.
pub proof fn finalization_is_consistent(template: TemplateModel, context: Seq<u8>)
    ensures
        finalized(template, context) matches Ok(problem) ==> {
            &&& problem.error() is None
            &&& problem.template() == template
            &&& problem.randomness matches RandomnessModel::ChallengeDerived {
                context: recorded,
                ..
            } ==> recorded == context
        },
{
    if let Ok(problem) = finalized(template, context) {
        assert(problem.template() =~= template);
    }
}

/// Changing the recorded seed of a valid challenge-derived problem makes it
/// refused.
pub proof fn altered_seed_is_refused(problem: ProblemModel, altered: ProblemModel)
    requires
        problem.error() is None,
        problem.randomness is ChallengeDerived,
        altered.matrix == problem.matrix,
        altered.rhs == problem.rhs,
        altered.outputs == problem.outputs,
        altered.randomness matches RandomnessModel::ChallengeDerived {
            derivation,
            template_digest: digest,
            context,
            context_digest,
            seed,
        } && problem.randomness == (RandomnessModel::ChallengeDerived {
            derivation,
            template_digest: digest,
            context,
            context_digest,
            seed: problem.randomness.seed(),
        }) && seed != problem.randomness.seed(),
    ensures
        altered.error() == Some(ProblemError::DerivedSeedMismatch),
{
    assert(altered.template() =~= problem.template());
}

} // verus!
