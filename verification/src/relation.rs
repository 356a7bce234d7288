//! Proof-system-independent semantics of the canonical fixed-point relation.
//!
//! A solver may operate however it likes, but the exact backend rounds its
//! binary64 output once to signed Q63.64. Matrix and right-hand-side values
//! remain exact dyadics. This module owns the immutable numerical profile, the
//! derived feasibility and no-wrap plan, and the bounded integer residual
//! relation. It contains no transcript or commitment code.

use vstd::arithmetic::power2::*;
use vstd::prelude::*;

use crate::binary64;
use crate::binary64::Binary64;
use crate::evaluator;
use crate::evaluator::{ExactArithmeticBounds, PublicEvaluationMetadata};
use crate::generated::GeneratedProblem;
use crate::generator::RhsModel;
use crate::matrix;
use crate::matrix::MatrixModel;
use crate::matrix_laws;
use crate::natural::{Integer, Natural};
use crate::problem;
use crate::solution::Solution;
use crate::structure_laws;
use crate::sums;

verus! {

/// Fractional bits of a witness integer.
pub const WITNESS_FRACTIONAL_BITS: u32 = 64;

/// A witness integer lies in `[-2^127, 2^127)`.
pub const WITNESS_MAGNITUDE_BITS: u32 = 127;

/// A residual integer lies in `[-2^68, 2^68)`.
pub const RESIDUAL_MAGNITUDE_BITS: u32 = 68;

/// Two to the witness magnitude bits.
pub const WITNESS_BOUND: u128 = 0x8000_0000_0000_0000_0000_0000_0000_0000;

/// Two to the residual magnitude bits.
pub const RESIDUAL_BOUND: i128 = 0x10_0000_0000_0000_0000;

/// Immutable numerical semantics of the exact protocol.
#[derive(Clone, Copy, Debug, PartialEq, Eq, Hash, Structural)]
pub enum ExactRelationProfile {
    V1,
}

/// The one exact relation profile registered by the current exact protocol.
pub const EXACT_RELATION_PROFILE_V1: ExactRelationProfile = ExactRelationProfile::V1;

impl ExactRelationProfile {
    pub fn version(self) -> (version: u16)
        ensures
            version == 1,
    {
        1
    }

    pub fn witness_fractional_bits(self) -> (bits: u32)
        ensures
            bits == WITNESS_FRACTIONAL_BITS,
    {
        WITNESS_FRACTIONAL_BITS
    }

    pub fn witness_magnitude_bits(self) -> (bits: u32)
        ensures
            bits == WITNESS_MAGNITUDE_BITS,
    {
        WITNESS_MAGNITUDE_BITS
    }

    pub fn residual_magnitude_bits(self) -> (bits: u32)
        ensures
            bits == RESIDUAL_MAGNITUDE_BITS,
    {
        RESIDUAL_MAGNITUDE_BITS
    }
}

/// Why a problem, a witness or a field does not admit the exact relation.
#[derive(Clone, Copy, Debug, PartialEq, Eq, Structural)]
pub enum RelationError {
    /// A vector has another length than the public dimension.
    WrongLength { expected: usize, actual: usize },
    /// A solution value lies outside signed Q63.64.
    WitnessOutOfRange { index: usize },
    /// A row residual lies outside `[-2^68, 2^68 - 1]`.
    ResidualOutOfRange { row: usize },
    /// The public scales cannot be aligned to the fixed-point relation.
    IncompatibleScale,
    /// Evaluator metadata is inconsistent with the profile.
    InconsistentPublicBounds,
    /// No Q63.64 witness reaches the public right-hand side within the residual
    /// range.
    InfeasiblePublicMagnitude,
    /// A field is too small for the no-wrap bounds.
    UnsafeFieldModulus,
}

/// Public conservative integer bounds checked before field identities are
/// accepted as integer identities.
#[derive(Debug, PartialEq, Eq)]
pub struct NoWrapBounds {
    pub maximum_matrix_term_magnitude: Natural,
    pub maximum_scaled_rhs_magnitude: Natural,
    pub maximum_row_identity_magnitude: Natural,
    pub maximum_squared_l2_numerator: Natural,
}

/// The numbers behind no-wrap bounds.
pub struct BoundsModel {
    pub matrix_term: nat,
    pub scaled_rhs: nat,
    pub row_identity: nat,
    pub squared_l2: nat,
}

impl View for NoWrapBounds {
    type V = BoundsModel;

    open spec fn view(&self) -> BoundsModel {
        BoundsModel {
            matrix_term: self.maximum_matrix_term_magnitude@,
            scaled_rhs: self.maximum_scaled_rhs_magnitude@,
            row_identity: self.maximum_row_identity_magnitude@,
            squared_l2: self.maximum_squared_l2_numerator@,
        }
    }
}

impl Clone for NoWrapBounds {
    fn clone(&self) -> (copy: Self)
        ensures
            copy@ == self@,
    {
        NoWrapBounds {
            maximum_matrix_term_magnitude: self.maximum_matrix_term_magnitude.clone(),
            maximum_scaled_rhs_magnitude: self.maximum_scaled_rhs_magnitude.clone(),
            maximum_row_identity_magnitude: self.maximum_row_identity_magnitude.clone(),
            maximum_squared_l2_numerator: self.maximum_squared_l2_numerator.clone(),
        }
    }
}

/// The consequences of the profile for a problem's public bounds.
pub struct PlanModel {
    pub bounds: ExactArithmeticBounds,
    pub relation_fractional_bits: nat,
    pub rhs_alignment_shift: nat,
    pub squared_l2_denominator_power: nat,
    pub no_wrap: BoundsModel,
}

/// The plan of public bounds: witness and matrix scales add up, the right-hand
/// side is shifted to their sum, and every magnitude is bounded.
pub open spec fn plan_of(bounds: ExactArithmeticBounds) -> Result<PlanModel, RelationError> {
    let relation = 64 + bounds.matrix_fractional_bits;
    if bounds.logical_dimension == 0 {
        Err(RelationError::InconsistentPublicBounds)
    } else if relation < bounds.rhs_fractional_bits {
        Err(RelationError::IncompatibleScale)
    } else {
        let shift = (relation - bounds.rhs_fractional_bits) as nat;
        let matrix_term = bounds.maximum_absolute_row_sum_mantissa as nat * pow2(127);
        let scaled_rhs = bounds.maximum_absolute_rhs_mantissa as nat * pow2(shift);
        Ok(
            PlanModel {
                bounds,
                relation_fractional_bits: relation as nat,
                rhs_alignment_shift: shift,
                squared_l2_denominator_power: (2 * relation) as nat,
                no_wrap: BoundsModel {
                    matrix_term,
                    scaled_rhs,
                    row_identity: matrix_term + scaled_rhs + pow2(68),
                    squared_l2: bounds.logical_dimension as nat * pow2(136),
                },
            },
        )
    }
}

/// Whether some witness may bring a right-hand-side entry of a magnitude within
/// the residual range.
pub open spec fn feasible(plan: PlanModel, logical_rhs_magnitude: nat) -> bool {
    logical_rhs_magnitude * pow2(plan.rhs_alignment_shift) <= plan.no_wrap.matrix_term + pow2(68)
}

/// The largest magnitude among the right-hand-side entries that some row uses.
pub open spec fn logical_rhs_maximum(rhs: RhsModel) -> nat {
    match rhs {
        RhsModel::Constant { value, .. } => problem::magnitude(value.mantissa as int),
        RhsModel::Periodic { dimension, table, .. } => matrix::max_magnitude(
            table.take(
                if dimension < table.len() {
                    dimension as int
                } else {
                    table.len() as int
                },
            ),
        ),
    }
}

/// The plan of a compiled problem: that of its bounds, where it is feasible.
pub open spec fn problem_plan(bounds: ExactArithmeticBounds, rhs: RhsModel) -> Result<
    PlanModel,
    RelationError,
> {
    match plan_of(bounds) {
        Err(error) => Err(error),
        Ok(plan) => if feasible(plan, logical_rhs_maximum(rhs)) {
            Ok(plan)
        } else {
            Err(RelationError::InfeasiblePublicMagnitude)
        },
    }
}

/// Whether a modulus exceeds every bounded difference.
pub open spec fn safe_modulus(no_wrap: BoundsModel, modulus: nat) -> bool {
    no_wrap.row_identity < modulus && no_wrap.squared_l2 < modulus
}

/// Problem-specific consequences of the immutable exact relation profile.
///
/// Construction validates scale alignment. Problem-backed construction also
/// checks the exact logical right-hand-side period and rejects a public numeric
/// envelope for which no Q63.64 witness can place every residual in the signed
/// 69-bit range. The resulting shifts, denominator and no-wrap bounds are
/// shared by statement admission, relation construction and the exact protocol.
#[derive(Debug, PartialEq, Eq)]
pub struct ExactRelationPlan {
    profile: ExactRelationProfile,
    public_bounds: ExactArithmeticBounds,
    relation_fractional_bits: u32,
    rhs_alignment_shift: u32,
    squared_l2_denominator_power: u32,
    no_wrap_bounds: NoWrapBounds,
}

impl View for ExactRelationPlan {
    type V = PlanModel;

    closed spec fn view(&self) -> PlanModel {
        PlanModel {
            bounds: self.public_bounds,
            relation_fractional_bits: self.relation_fractional_bits as nat,
            rhs_alignment_shift: self.rhs_alignment_shift as nat,
            squared_l2_denominator_power: self.squared_l2_denominator_power as nat,
            no_wrap: self.no_wrap_bounds@,
        }
    }
}

/// Whether a result is the outcome that a plan model prescribes.
pub open spec fn plans(
    result: Result<ExactRelationPlan, RelationError>,
    outcome: Result<PlanModel, RelationError>,
) -> bool {
    match outcome {
        Ok(plan) => result matches Ok(found) && found@ == plan,
        Err(error) => result matches Err(found) && found == error,
    }
}

impl ExactRelationPlan {
    #[verifier::type_invariant]
    spec fn inv(self) -> bool {
        self.rhs_alignment_shift <= 319
    }

    /// Derives and validates the exact profile from a compiled public problem.
    pub fn from_problem(problem: &GeneratedProblem) -> (result: Result<
        ExactRelationPlan,
        RelationError,
    >)
        ensures
            plans(
                result,
                problem_plan(evaluator::exact_bounds_of(problem.certified()), problem@.rhs),
            ),
    {
        match ExactRelationPlan::from_public_bounds(problem.exact_arithmetic_bounds()) {
            Err(error) => Err(error),
            Ok(plan) => {
                let largest: u64 = maximum_absolute_logical_rhs_mantissa(problem);
                match plan.ensure_feasible_public_magnitude(largest) {
                    Ok(_) => Ok(plan),
                    Err(error) => Err(error),
                }
            },
        }
    }

    /// Derives the same scale and no-wrap plan from succinct-verifier metadata.
    ///
    /// Metadata bounds may include unused periodic entries, so impossibility
    /// admission is performed only by [`Self::from_problem`].
    pub fn from_metadata(metadata: PublicEvaluationMetadata) -> (result: Result<
        ExactRelationPlan,
        RelationError,
    >)
        ensures
            metadata.domain.logical_dimension != metadata.exact_bounds.logical_dimension
                ==> (result matches Err(error) && error == RelationError::InconsistentPublicBounds),
            metadata.domain.logical_dimension == metadata.exact_bounds.logical_dimension ==> plans(
                result,
                plan_of(metadata.exact_bounds),
            ),
    {
        if metadata.domain.logical_dimension != metadata.exact_bounds.logical_dimension {
            return Err(RelationError::InconsistentPublicBounds);
        }
        ExactRelationPlan::from_public_bounds(metadata.exact_bounds)
    }

    /// Derives the scale and no-wrap plan of public bounds.
    pub fn from_public_bounds(public_bounds: ExactArithmeticBounds) -> (result: Result<
        ExactRelationPlan,
        RelationError,
    >)
        ensures
            plans(result, plan_of(public_bounds)),
    {
        if public_bounds.logical_dimension == 0 {
            return Err(RelationError::InconsistentPublicBounds);
        }
        let profile = EXACT_RELATION_PROFILE_V1;
        let relation_fractional_bits: u32 = profile.witness_fractional_bits()
            + public_bounds.matrix_fractional_bits as u32;
        let rhs_fractional_bits: u32 = public_bounds.rhs_fractional_bits as u32;
        if relation_fractional_bits < rhs_fractional_bits {
            return Err(RelationError::IncompatibleScale);
        }
        let rhs_alignment_shift: u32 = relation_fractional_bits - rhs_fractional_bits;
        let squared_l2_denominator_power: u32 = relation_fractional_bits * 2;
        proof {
            assert(1 * pow2(127) == pow2(127)) by (nonlinear_arith);
            assert(1 * pow2(68) == pow2(68)) by (nonlinear_arith);
        }
        let one = Natural::from_u64(1);
        let witness_magnitude = one.shifted(profile.witness_magnitude_bits());
        let maximum_matrix_term_magnitude = Natural::from_u64(
            public_bounds.maximum_absolute_row_sum_mantissa,
        ).times(&witness_magnitude);
        let maximum_scaled_rhs_magnitude = Natural::from_u64(
            public_bounds.maximum_absolute_rhs_mantissa,
        ).shifted(rhs_alignment_shift);
        let residual_magnitude = one.shifted(profile.residual_magnitude_bits());
        let maximum_row_identity_magnitude = maximum_matrix_term_magnitude.plus(
            &maximum_scaled_rhs_magnitude,
        ).plus(&residual_magnitude);
        let residual_norm_shift: u32 = profile.residual_magnitude_bits() * 2;
        let maximum_squared_l2_numerator = Natural::from_u64(
            public_bounds.logical_dimension as u64,
        ).shifted(residual_norm_shift);
        Ok(
            ExactRelationPlan {
                profile,
                public_bounds,
                relation_fractional_bits,
                rhs_alignment_shift,
                squared_l2_denominator_power,
                no_wrap_bounds: NoWrapBounds {
                    maximum_matrix_term_magnitude,
                    maximum_scaled_rhs_magnitude,
                    maximum_row_identity_magnitude,
                    maximum_squared_l2_numerator,
                },
            },
        )
    }

    /// Rejects a logical right-hand side that no witness can reach.
    pub fn ensure_feasible_public_magnitude(
        &self,
        maximum_absolute_logical_rhs_mantissa: u64,
    ) -> (result: Result<(), RelationError>)
        ensures
            result == (if feasible(self@, maximum_absolute_logical_rhs_mantissa as nat) {
                Ok::<(), RelationError>(())
            } else {
                Err(RelationError::InfeasiblePublicMagnitude)
            }),
    {
        proof {
            use_type_invariant(self);
            assert(1 * pow2(68) == pow2(68)) by (nonlinear_arith);
        }
        let residual_magnitude = Natural::from_u64(1).shifted(
            self.profile.residual_magnitude_bits(),
        );
        let maximum_reachable_rhs = self.no_wrap_bounds.maximum_matrix_term_magnitude.plus(
            &residual_magnitude,
        );
        let scaled_logical_rhs = Natural::from_u64(maximum_absolute_logical_rhs_mantissa).shifted(
            self.rhs_alignment_shift,
        );
        if scaled_logical_rhs.at_most(&maximum_reachable_rhs) {
            Ok(())
        } else {
            Err(RelationError::InfeasiblePublicMagnitude)
        }
    }

    pub fn profile(&self) -> (profile: ExactRelationProfile)
        ensures
            profile == EXACT_RELATION_PROFILE_V1,
    {
        self.profile
    }

    pub fn public_bounds(&self) -> (bounds: ExactArithmeticBounds)
        ensures
            bounds == self@.bounds,
    {
        self.public_bounds
    }

    pub fn relation_fractional_bits(&self) -> (bits: u32)
        ensures
            bits == self@.relation_fractional_bits,
    {
        self.relation_fractional_bits
    }

    pub fn rhs_alignment_shift(&self) -> (shift: u32)
        ensures
            shift == self@.rhs_alignment_shift,
            shift <= 319,
    {
        proof {
            use_type_invariant(self);
        }
        self.rhs_alignment_shift
    }

    pub fn squared_l2_denominator_power(&self) -> (power: u32)
        ensures
            power == self@.squared_l2_denominator_power,
    {
        self.squared_l2_denominator_power
    }

    pub fn no_wrap_bounds(&self) -> (bounds: &NoWrapBounds)
        ensures
            bounds@ == self@.no_wrap,
    {
        &self.no_wrap_bounds
    }

    /// Rejects a field that could turn a bounded nonzero integer into zero.
    pub fn audit_field_modulus(&self, field_modulus: &Natural) -> (result: Result<
        (),
        RelationError,
    >)
        ensures
            result == (if safe_modulus(self@.no_wrap, field_modulus@) {
                Ok::<(), RelationError>(())
            } else {
                Err(RelationError::UnsafeFieldModulus)
            }),
    {
        if field_modulus.at_most(&self.no_wrap_bounds.maximum_row_identity_magnitude)
            || field_modulus.at_most(&self.no_wrap_bounds.maximum_squared_l2_numerator) {
            return Err(RelationError::UnsafeFieldModulus);
        }
        Ok(())
    }
}

/// The largest right-hand-side magnitude that some row of the problem uses.
///
/// The scan is bounded by the public period rather than by the logical
/// dimension.
pub fn maximum_absolute_logical_rhs_mantissa(problem: &GeneratedProblem) -> (maximum: u64)
    ensures
        maximum == logical_rhs_maximum(problem@.rhs),
{
    let dimension: usize = problem.dimension();
    let certificate = problem.certificate();
    match problem.rhs_periodic_mantissas() {
        None => certificate.maximum_absolute_rhs_mantissa,
        Some(mantissas) => {
            let used: usize = if dimension < mantissas.len() {
                dimension
            } else {
                mantissas.len()
            };
            let mut maximum: u64 = 0;
            let mut index: usize = 0;
            assert(mantissas@.take(0) =~= Seq::<i64>::empty());
            while index < used
                invariant
                    index <= used <= mantissas@.len(),
                    maximum == matrix::max_magnitude(mantissas@.take(index as int)),
                decreases used - index,
            {
                assert(mantissas@.take(index + 1).drop_last() =~= mantissas@.take(index as int));
                let magnitude: u64 = problem::unsigned_magnitude(mantissas[index]);
                if magnitude > maximum {
                    maximum = magnitude;
                }
                index = index + 1;
            }
            maximum
        },
    }
}

/// The mathematical integers of a vector.
pub open spec fn integers(values: Seq<i128>) -> Seq<int> {
    values.map_values(|value: i128| value as int)
}

/// Canonical Q63.64 private witness.
#[derive(Debug, PartialEq, Eq)]
pub struct FixedWitness {
    values: Vec<i128>,
}

impl View for FixedWitness {
    type V = Seq<i128>;

    closed spec fn view(&self) -> Seq<i128> {
        self.values@
    }
}

impl Clone for FixedWitness {
    fn clone(&self) -> (copy: Self)
        ensures
            copy@ == self@,
    {
        FixedWitness { values: vstd::slice::slice_to_vec(self.values.as_slice()) }
    }
}

/// What rounding a solution gives: each value once, or the first value that
/// leaves the range.
pub open spec fn witness_outcome(
    values: Seq<Binary64>,
    dimension: usize,
    result: Result<FixedWitness, RelationError>,
) -> bool {
    if values.len() != dimension {
        result matches Err(error) && error == (RelationError::WrongLength {
            expected: dimension,
            actual: values.len() as usize,
        })
    } else {
        match result {
            Ok(witness) => witness@.len() == values.len() && forall|i: int|
                0 <= i < values.len() ==> binary64::fixed_point(values[i]@) == Some(
                    #[trigger] witness@[i],
                ),
            Err(error) => exists|i: int|
                0 <= i < values.len() && error == (RelationError::WitnessOutOfRange {
                    index: i as usize,
                }) && binary64::fixed_point((#[trigger] values[i])@) is None && forall|j: int|
                    0 <= j < i ==> binary64::fixed_point((#[trigger] values[j])@) is Some,
        }
    }
}

impl FixedWitness {
    /// A witness of given integers.
    pub fn from_integers(values: Vec<i128>) -> (witness: FixedWitness)
        ensures
            witness@ == values@,
    {
        FixedWitness { values }
    }

    /// Rounds every solution value once.
    pub fn from_solution(solution: &Solution, dimension: usize) -> (result: Result<
        FixedWitness,
        RelationError,
    >)
        ensures
            witness_outcome(solution@, dimension, result),
    {
        let source = solution.as_slice();
        if source.len() != dimension {
            return Err(
                RelationError::WrongLength { expected: dimension, actual: source.len() },
            );
        }
        let mut values: Vec<i128> = Vec::new();
        let mut index: usize = 0;
        while index < source.len()
            invariant
                source@ == solution@,
                source@.len() == dimension,
                index <= source@.len(),
                values@.len() == index,
                forall|i: int|
                    0 <= i < index ==> binary64::fixed_point(source@[i]@) == Some(
                        #[trigger] values@[i],
                    ),
            decreases source@.len() - index,
        {
            match source[index].to_q63_64() {
                Some(value) => {
                    values.push(value);
                },
                None => {
                    proof {
                        assert(binary64::fixed_point(source@[index as int]@) is None);
                        assert forall|j: int| 0 <= j < index implies binary64::fixed_point(
                            (#[trigger] source@[j])@,
                        ) is Some by {
                            assert(binary64::fixed_point(source@[j]@) == Some(values@[j]));
                        }
                    }
                    return Err(RelationError::WitnessOutOfRange { index });
                },
            }
            index = index + 1;
        }
        Ok(FixedWitness { values })
    }

    pub fn as_slice(&self) -> (values: &[i128])
        ensures
            values@ == self@,
    {
        self.values.as_slice()
    }
}

/// The exact residual of a row: the row product less the right-hand side at the
/// relation's scale.
pub open spec fn residual(
    matrix: MatrixModel,
    rhs: RhsModel,
    shift: nat,
    witness: Seq<i128>,
    row: int,
) -> int {
    matrix_laws::row_product(matrix, row, integers(witness)) - rhs.mantissa(row) * pow2(shift)
}

/// Whether a residual lies in the signed 69-bit range.
pub open spec fn in_residual_range(value: int) -> bool {
    -(RESIDUAL_BOUND as int) <= value < RESIDUAL_BOUND
}

/// The sum of the squares of the first `count` residuals.
pub open spec fn squared_sum(residuals: Seq<i128>, count: nat) -> int {
    sums::sum_below(count, |i: int| residuals[i] * residuals[i])
}

/// Bounded exact residual data authenticated by the exact path.
#[derive(Debug, PartialEq, Eq)]
pub struct ExactRelation {
    witness: FixedWitness,
    residuals: Vec<i128>,
    squared_l2_numerator: Natural,
    squared_l2_denominator_power: u32,
}

/// What an exact relation holds.
pub struct RelationModel {
    pub witness: Seq<i128>,
    pub residuals: Seq<i128>,
    pub squared_l2_numerator: nat,
    pub squared_l2_denominator_power: nat,
}

impl View for ExactRelation {
    type V = RelationModel;

    closed spec fn view(&self) -> RelationModel {
        RelationModel {
            witness: self.witness@,
            residuals: self.residuals@,
            squared_l2_numerator: self.squared_l2_numerator@,
            squared_l2_denominator_power: self.squared_l2_denominator_power as nat,
        }
    }
}

/// Whether a relation holds the exact residuals of a witness, all in range,
/// and their squared norm.
pub open spec fn relates(
    matrix: MatrixModel,
    rhs: RhsModel,
    plan: PlanModel,
    witness: Seq<i128>,
    relation: RelationModel,
) -> bool {
    &&& relation.witness == witness
    &&& relation.residuals.len() == matrix.dimension()
    &&& forall|row: int|
        0 <= row < matrix.dimension() ==> {
            &&& #[trigger] relation.residuals[row] == residual(
                matrix,
                rhs,
                plan.rhs_alignment_shift,
                witness,
                row,
            )
            &&& in_residual_range(relation.residuals[row] as int)
        }
    &&& relation.squared_l2_numerator == squared_sum(relation.residuals, matrix.dimension())
    &&& relation.squared_l2_denominator_power == plan.squared_l2_denominator_power
}

/// What building the relation of a witness gives.
pub open spec fn relation_outcome(
    bounds: ExactArithmeticBounds,
    matrix: MatrixModel,
    rhs: RhsModel,
    witness: Seq<i128>,
    result: Result<ExactRelation, RelationError>,
) -> bool {
    if witness.len() != matrix.dimension() {
        result matches Err(error) && error == (RelationError::WrongLength {
            expected: matrix.dimension() as usize,
            actual: witness.len() as usize,
        })
    } else {
        match problem_plan(bounds, rhs) {
            Err(refused) => result matches Err(error) && error == refused,
            Ok(plan) => match result {
                Ok(relation) => relates(matrix, rhs, plan, witness, relation@),
                Err(error) => exists|row: int|
                    0 <= row < matrix.dimension() && error == (RelationError::ResidualOutOfRange {
                        row: row as usize,
                    }) && !in_residual_range(
                        #[trigger] residual(matrix, rhs, plan.rhs_alignment_shift, witness, row),
                    ) && forall|before: int|
                        0 <= before < row ==> in_residual_range(
                            #[trigger] residual(
                                matrix,
                                rhs,
                                plan.rhs_alignment_shift,
                                witness,
                                before,
                            ),
                        ),
            },
        }
    }
}

/// The exact residual of one row.
fn row_residual(
    problem: &GeneratedProblem,
    witness: &[i128],
    shift: u32,
    row: usize,
) -> (value: Integer)
    requires
        witness@.len() == problem@.matrix.dimension(),
        row < problem@.matrix.dimension(),
        shift <= 4096,
    ensures
        value@ == residual(problem@.matrix, problem@.rhs, shift as nat, witness@, row as int),
{
    let ghost matrix = problem@.matrix;
    let ghost vector = integers(witness@);
    let mut dot = Integer::zero();
    match problem.row(row) {
        None => {},
        Some(mut entries) => {
            let ghost listed = entries@;
            let ghost mut done: nat = 0;
            assert(listed.skip(0) =~= listed);
            loop
                invariant_except_break
                    entries.wf(),
                    done <= listed.len(),
                    entries@ == listed.skip(done as int),
                    dot@ == structure_laws::listed_product(listed, vector, done),
                    matrix::lists_row(matrix, row as int, listed),
                    vector == integers(witness@),
                    matrix == problem@.matrix,
                    witness@.len() == matrix.dimension(),
                ensures
                    dot@ == structure_laws::listed_product(listed, vector, listed.len()),
                    matrix::lists_row(matrix, row as int, listed),
                decreases listed.len() - done,
            {
                match entries.next() {
                    None => {
                        break;
                    },
                    Some(entry) => {
                        proof {
                            assert(entry == listed[done as int]);
                            assert(listed.skip(done as int).skip(1) =~= listed.skip(done as int + 1));
                        }
                        let term = Integer::product(
                            entry.value.mantissa(),
                            witness[entry.column],
                        );
                        dot = dot.plus(&term);
                        proof {
                            done = done + 1;
                        }
                    },
                }
            }
            proof {
                structure_laws::listed_products_give_the_row_product(
                    matrix,
                    row as int,
                    listed,
                    vector,
                );
            }
        },
    }
    let mantissa: i64 = match problem.rhs(row) {
        Some(value) => value.mantissa(),
        None => 0,
    };
    dot.minus(&Integer::shifted(mantissa, shift))
}

/// The magnitude of an integer.
fn absolute(value: i128) -> (magnitude: u128)
    ensures
        magnitude == problem::magnitude(value as int),
{
    if value >= 0 {
        value as u128
    } else if value == i128::MIN {
        0x8000_0000_0000_0000_0000_0000_0000_0000
    } else {
        (-value) as u128
    }
}

impl ExactRelation {
    /// Rounds a solution and builds its relation.
    pub fn from_solution(problem: &GeneratedProblem, solution: &Solution) -> (result: Result<
        ExactRelation,
        RelationError,
    >)
        ensures
            exists|rounded: Result<FixedWitness, RelationError>|
                #[trigger] witness_outcome(
                    solution@,
                    problem@.matrix.dimension() as usize,
                    rounded,
                ) && (match rounded {
                    Ok(witness) => relation_outcome(
                        evaluator::exact_bounds_of(problem.certified()),
                        problem@.matrix,
                        problem@.rhs,
                        witness@,
                        result,
                    ),
                    Err(refused) => result matches Err(error) && error == refused,
                }),
    {
        let rounded = FixedWitness::from_solution(solution, problem.dimension());
        let ghost outcome = rounded;
        match rounded {
            Ok(witness) => {
                let result = ExactRelation::from_witness(problem, witness);
                assert(witness_outcome(
                    solution@,
                    problem@.matrix.dimension() as usize,
                    outcome,
                ));
                result
            },
            Err(error) => {
                assert(witness_outcome(
                    solution@,
                    problem@.matrix.dimension() as usize,
                    outcome,
                ));
                Err(error)
            },
        }
    }

    /// Computes every row residual exactly and refuses the first that leaves
    /// the signed 69-bit range.
    pub fn from_witness(problem: &GeneratedProblem, witness: FixedWitness) -> (result: Result<
        ExactRelation,
        RelationError,
    >)
        ensures
            relation_outcome(
                evaluator::exact_bounds_of(problem.certified()),
                problem@.matrix,
                problem@.rhs,
                witness@,
                result,
            ),
    {
        let dimension: usize = problem.dimension();
        if witness.values.len() != dimension {
            return Err(
                RelationError::WrongLength {
                    expected: dimension,
                    actual: witness.values.len(),
                },
            );
        }
        let plan = match ExactRelationPlan::from_problem(problem) {
            Ok(plan) => plan,
            Err(error) => {
                return Err(error);
            },
        };
        let shift: u32 = plan.rhs_alignment_shift();
        let mut residuals: Vec<i128> = Vec::new();
        let mut squared_l2_numerator = Natural::from_u64(0);
        let mut row: usize = 0;
        while row < dimension
            invariant
                row <= dimension,
                dimension == problem@.matrix.dimension(),
                witness@.len() == dimension,
                plan@.rhs_alignment_shift == shift,
                shift <= 319,
                problem_plan(
                    evaluator::exact_bounds_of(problem.certified()),
                    problem@.rhs,
                ) == Ok::<PlanModel, RelationError>(plan@),
                residuals@.len() == row,
                forall|i: int|
                    0 <= i < row ==> {
                        &&& #[trigger] residuals@[i] == residual(
                            problem@.matrix,
                            problem@.rhs,
                            shift as nat,
                            witness@,
                            i,
                        )
                        &&& in_residual_range(residuals@[i] as int)
                    },
                squared_l2_numerator@ == squared_sum(residuals@, row as nat),
            decreases dimension - row,
        {
            let exact = row_residual(problem, witness.values.as_slice(), shift, row);
            let ghost expected = residual(
                problem@.matrix,
                problem@.rhs,
                shift as nat,
                witness@,
                row as int,
            );
            let value: i128 = match exact.narrowed() {
                Some(value) => value,
                None => {
                    proof {
                        assert(!in_residual_range(expected));
                        assert forall|i: int| 0 <= i < row implies in_residual_range(
                            #[trigger] residual(
                                problem@.matrix,
                                problem@.rhs,
                                shift as nat,
                                witness@,
                                i,
                            ),
                        ) by {
                            assert(in_residual_range(residuals@[i] as int));
                        }
                    }
                    return Err(RelationError::ResidualOutOfRange { row });
                },
            };
            if value < -RESIDUAL_BOUND || value >= RESIDUAL_BOUND {
                proof {
                    assert(!in_residual_range(expected));
                    assert forall|i: int| 0 <= i < row implies in_residual_range(
                        #[trigger] residual(
                            problem@.matrix,
                            problem@.rhs,
                            shift as nat,
                            witness@,
                            i,
                        ),
                    ) by {
                        assert(in_residual_range(residuals@[i] as int));
                    }
                }
                return Err(RelationError::ResidualOutOfRange { row });
            }
            let magnitude = Natural::from_u128(absolute(value));
            squared_l2_numerator = squared_l2_numerator.plus(&magnitude.times(&magnitude));
            let ghost before = residuals@;
            residuals.push(value);
            proof {
                let square = |i: int| residuals@[i] * residuals@[i];
                let earlier = |i: int| before[i] * before[i];
                sums::lemma_sum_equal(row as nat, earlier, square);
                assert(squared_sum(residuals@, (row + 1) as nat) == sums::sum_below(
                    (row + 1) as nat,
                    square,
                ));
                assert(squared_sum(before, row as nat) == sums::sum_below(row as nat, earlier));
                matrix_laws::lemma_magnitude_product(value as int, value as int);
                assert(value * value >= 0) by (nonlinear_arith);
                assert(magnitude@ * magnitude@ == value * value);
            }
            row = row + 1;
        }
        Ok(
            ExactRelation {
                witness,
                residuals,
                squared_l2_numerator,
                squared_l2_denominator_power: plan.squared_l2_denominator_power(),
            },
        )
    }

    pub fn witness(&self) -> (witness: &FixedWitness)
        ensures
            witness@ == self@.witness,
    {
        &self.witness
    }

    pub fn residuals(&self) -> (residuals: &[i128])
        ensures
            residuals@ == self@.residuals,
    {
        self.residuals.as_slice()
    }

    pub fn squared_l2_numerator(&self) -> (numerator: &Natural)
        ensures
            numerator@ == self@.squared_l2_numerator,
    {
        &self.squared_l2_numerator
    }

    pub fn squared_l2_denominator_power(&self) -> (power: u32)
        ensures
            power == self@.squared_l2_denominator_power,
    {
        self.squared_l2_denominator_power
    }
}

/// Derives bounds solely from the compiled public generator certificate.
pub fn no_wrap_bounds(problem: &GeneratedProblem) -> (result: Result<NoWrapBounds, RelationError>)
    ensures
        (match problem_plan(evaluator::exact_bounds_of(problem.certified()), problem@.rhs) {
            Ok(plan) => result matches Ok(bounds) && bounds@ == plan.no_wrap,
            Err(refused) => result matches Err(error) && error == refused,
        }),
{
    match ExactRelationPlan::from_problem(problem) {
        Ok(plan) => Ok(plan.no_wrap_bounds().clone()),
        Err(error) => Err(error),
    }
}

/// Rejects a field that could turn a nonzero bounded integer relation into
/// zero.
pub fn audit_field_modulus(problem: &GeneratedProblem, field_modulus: &Natural) -> (result: Result<
    NoWrapBounds,
    RelationError,
>)
    ensures
        (match problem_plan(evaluator::exact_bounds_of(problem.certified()), problem@.rhs) {
            Ok(plan) => if safe_modulus(plan.no_wrap, field_modulus@) {
                result matches Ok(bounds) && bounds@ == plan.no_wrap
            } else {
                result matches Err(error) && error == RelationError::UnsafeFieldModulus
            },
            Err(refused) => result matches Err(error) && error == refused,
        }),
{
    let plan = match ExactRelationPlan::from_problem(problem) {
        Ok(plan) => plan,
        Err(error) => {
            return Err(error);
        },
    };
    match plan.audit_field_modulus(field_modulus) {
        Ok(_) => Ok(plan.no_wrap_bounds().clone()),
        Err(error) => Err(error),
    }
}

} // verus!
