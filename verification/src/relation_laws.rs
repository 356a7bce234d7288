//! Laws of the exact relation: audited fields do not wrap, infeasible problems
//! have no relation, and manufactured systems are solved exactly by ones.

use vstd::arithmetic::power2::*;
use vstd::prelude::*;

use crate::binary64;
use crate::binary64::Binary64;
use crate::evaluator;
use crate::evaluator::{
    ExactArithmeticBounds, ExactNoWrapDiagnostics, PublicEvaluationMetadata,
};
use crate::generated;
use crate::generator;
use crate::generator::{GeneratedModel, GeneratorCertificate, RhsModel};
use crate::matrix;
use crate::matrix::MatrixModel;
use crate::matrix_laws;
use crate::powers;
use crate::problem;
use crate::relation;
use crate::relation::{BoundsModel, ExactRelation, FixedWitness, PlanModel, RelationError};
use crate::sums;

verus! {

proof fn lemma_powers()
    ensures
        pow2(127) == relation::WITNESS_BOUND,
        pow2(68) == relation::RESIDUAL_BOUND,
        pow2(136) == relation::RESIDUAL_BOUND * relation::RESIDUAL_BOUND,
{
    lemma2_to64();
    lemma2_to64_rest();
    lemma_pow2_adds(63, 64);
    lemma_pow2_adds(64, 4);
    lemma_pow2_adds(68, 68);
    assert(0x8000_0000_0000_0000int * 0x1_0000_0000_0000_0000int
        == 0x8000_0000_0000_0000_0000_0000_0000_0000int);
    assert(0x1_0000_0000_0000_0000int * 16 == 0x10_0000_0000_0000_0000int);
}

/// A row product is bounded by the row's absolute sum times the largest vector
/// entry.
proof fn lemma_row_product_bound(
    matrix: MatrixModel,
    row: int,
    vector: Seq<int>,
    bound: nat,
)
    requires
        forall|i: int|
            0 <= i < matrix.dimension() ==> problem::magnitude(#[trigger] vector[i]) <= bound,
    ensures
        problem::magnitude(matrix_laws::row_product(matrix, row, vector))
            <= matrix_laws::magnitude_sum(matrix, row) * bound,
{
    let dimension = matrix.dimension();
    let product = |column: int| matrix.coefficient(row, column) * vector[column];
    let size = |column: int| problem::magnitude(matrix.coefficient(row, column)) as int;
    let scaled = |column: int| bound as int * size(column);
    matrix_laws::lemma_magnitude_of_sum(dimension, product);
    let sizes = |column: int| problem::magnitude(product(column)) as int;
    assert forall|column: int| 0 <= column < dimension implies #[trigger] sizes(column) <= scaled(
        column,
    ) by {
        let a = matrix.coefficient(row, column);
        let v = vector[column];
        matrix_laws::lemma_magnitude_product(a, v);
        let m = problem::magnitude(a) as int;
        let w = problem::magnitude(v) as int;
        assert(m * w <= bound * m) by (nonlinear_arith)
            requires
                0 <= m,
                0 <= w <= bound,
        ;
    }
    sums::lemma_sum_monotonic(dimension, sizes, scaled);
    sums::lemma_sum_scale(dimension, bound as int, size);
    let total = sums::sum_below(dimension, size);
    assert(bound * total == total * bound) by (nonlinear_arith);
}

/// The row-product and right-hand-side parts of a row's residual stay within
/// the plan's bounds.
proof fn lemma_row_parts(
    model: GeneratedModel,
    certificate: GeneratorCertificate,
    plan: PlanModel,
    witness: Seq<i128>,
    row: int,
)
    requires
        generated::sound(model, certificate),
        relation::plan_of(evaluator::exact_bounds_of(certificate)) == Ok::<
            PlanModel,
            RelationError,
        >(plan),
        witness.len() == model.matrix.dimension(),
        0 <= row < model.matrix.dimension(),
    ensures
        problem::magnitude(
            matrix_laws::row_product(model.matrix, row, relation::integers(witness)),
        ) <= plan.no_wrap.matrix_term,
        problem::magnitude(model.rhs.mantissa(row) * pow2(plan.rhs_alignment_shift))
            <= plan.no_wrap.scaled_rhs,
{
    let vector = relation::integers(witness);
    lemma_powers();
    assert forall|i: int| 0 <= i < model.matrix.dimension() implies problem::magnitude(
        #[trigger] vector[i],
    ) <= pow2(127) by {
        assert(vector[i] == witness[i] as int);
    }
    lemma_row_product_bound(model.matrix, row, vector, pow2(127));
    matrix_laws::row_sums_are_bounded(model.matrix, row);
    let sum = matrix_laws::magnitude_sum(model.matrix, row);
    let limit = certificate.maximum_absolute_row_sum_mantissa_bound as int;
    let unit = pow2(127) as int;
    assert(sum * unit <= limit * unit) by (nonlinear_arith)
        requires
            sum <= limit,
            0 <= unit,
    ;
    let entry = model.rhs.mantissa(row);
    let scale = pow2(plan.rhs_alignment_shift) as int;
    match model.rhs {
        RhsModel::Periodic { table, .. } => {
            let index = row % table.len() as int;
            assert(0 <= index < table.len());
            matrix::lemma_max_magnitude(table, index);
        },
        _ => {},
    }
    matrix_laws::lemma_magnitude_product(entry, scale);
    lemma_pow2_pos(plan.rhs_alignment_shift);
    let size = problem::magnitude(entry) as int;
    let largest = certificate.maximum_absolute_rhs_mantissa as int;
    assert(size * scale <= largest * scale) by (nonlinear_arith)
        requires
            size <= largest,
            0 <= scale,
    ;
}

proof fn lemma_small_multiple(value: int, modulus: nat)
    requires
        problem::magnitude(value) < modulus,
    ensures
        value % (modulus as int) == 0 <==> value == 0,
{
    let m = modulus as int;
    if value < 0 {
        assert(value % m == value + m) by {
            vstd::arithmetic::div_mod::lemma_fundamental_div_mod_converse(
                value,
                m,
                -1,
                value + m,
            );
        }
    } else {
        vstd::arithmetic::div_mod::lemma_small_mod(value as nat, modulus);
    }
}

/// In an audited field, a row identity between a witness and a bounded residual
/// holds as an integer identity exactly when it holds modulo the field.
pub proof fn audited_fields_keep_row_identities(
    model: GeneratedModel,
    certificate: GeneratorCertificate,
    plan: PlanModel,
    modulus: nat,
    witness: Seq<i128>,
    row: int,
    claimed: int,
)
    requires
        generated::sound(model, certificate),
        relation::plan_of(evaluator::exact_bounds_of(certificate)) == Ok::<
            PlanModel,
            RelationError,
        >(plan),
        relation::safe_modulus(plan.no_wrap, modulus),
        witness.len() == model.matrix.dimension(),
        0 <= row < model.matrix.dimension(),
        relation::in_residual_range(claimed),
    ensures
        ({
            let exact = relation::residual(
                model.matrix,
                model.rhs,
                plan.rhs_alignment_shift,
                witness,
                row,
            );
            &&& problem::magnitude(exact - claimed) < modulus
            &&& (exact - claimed) % (modulus as int) == 0 <==> exact == claimed
        }),
{
    lemma_powers();
    lemma_row_parts(model, certificate, plan, witness, row);
    let exact = relation::residual(
        model.matrix,
        model.rhs,
        plan.rhs_alignment_shift,
        witness,
        row,
    );
    lemma_small_multiple(exact - claimed, modulus);
}

/// In an audited field, the squared norm of bounded residuals does not wrap.
pub proof fn audited_fields_keep_squared_norms(
    plan: PlanModel,
    modulus: nat,
    residuals: Seq<i128>,
)
    requires
        relation::plan_of(plan.bounds) == Ok::<PlanModel, RelationError>(plan),
        relation::safe_modulus(plan.no_wrap, modulus),
        residuals.len() == plan.bounds.logical_dimension,
        forall|i: int|
            0 <= i < residuals.len() ==> relation::in_residual_range(
                #[trigger] residuals[i] as int,
            ),
    ensures
        0 <= relation::squared_sum(residuals, residuals.len()) < modulus,
{
    lemma_powers();
    let square = |i: int| residuals[i] * residuals[i];
    let bound = relation::RESIDUAL_BOUND * relation::RESIDUAL_BOUND;
    assert forall|i: int| 0 <= i < residuals.len() implies 0 <= #[trigger] square(i) && square(i)
        <= bound by {
        let r = residuals[i] as int;
        let b = relation::RESIDUAL_BOUND as int;
        assert(relation::in_residual_range(residuals[i] as int));
        assert(0 <= r * r <= b * b) by (nonlinear_arith)
            requires
                -b <= r < b,
        ;
    }
    sums::lemma_sum_at_most(residuals.len(), square, bound);
    let nothing = |i: int| 0int;
    sums::lemma_sum_zero(residuals.len(), nothing);
    sums::lemma_sum_monotonic(residuals.len(), nothing, square);
}

/// A squared norm is zero only where every residual is.
pub proof fn zero_norms_have_zero_residuals(residuals: Seq<i128>, count: nat)
    requires
        count <= residuals.len(),
    ensures
        relation::squared_sum(residuals, count) == 0 <==> forall|i: int|
            0 <= i < count ==> #[trigger] residuals[i] == 0,
        relation::squared_sum(residuals, count) >= 0,
    decreases count,
{
    if count > 0 {
        zero_norms_have_zero_residuals(residuals, (count - 1) as nat);
        let last = residuals[count - 1] as int;
        assert(last * last >= 0 && (last * last == 0 <==> last == 0)) by (nonlinear_arith);
        let fewer = relation::squared_sum(residuals, (count - 1) as nat);
        assert(relation::squared_sum(residuals, count) == fewer + last * last);
        if forall|i: int| 0 <= i < count ==> #[trigger] residuals[i] == 0 {
            assert(residuals[count - 1] == 0);
            assert(forall|i: int| 0 <= i < count - 1 ==> #[trigger] residuals[i] == 0);
        }
    }
}

proof fn lemma_maximum_attained(table: Seq<i64>) -> (index: int)
    requires
        0 < table.len(),
    ensures
        0 <= index < table.len(),
        problem::magnitude(table[index] as int) == matrix::max_magnitude(table),
    decreases table.len(),
{
    let last = table.len() - 1;
    if table.len() == 1 {
        assert(matrix::max_magnitude(table.drop_last()) == 0);
        last
    } else {
        let before = lemma_maximum_attained(table.drop_last());
        if problem::magnitude(table[last] as int) > matrix::max_magnitude(table.drop_last()) {
            last
        } else {
            before
        }
    }
}

/// The logical maximum is the largest right-hand-side magnitude of any row, and
/// some row has it.
pub proof fn logical_maximum_is_attained(rhs: RhsModel) -> (row: int)
    requires
        rhs.wf(),
    ensures
        0 <= row < rhs.dimension(),
        problem::magnitude(rhs.mantissa(row)) == relation::logical_rhs_maximum(rhs),
        forall|other: int|
            0 <= other < rhs.dimension() ==> problem::magnitude(#[trigger] rhs.mantissa(other))
                <= relation::logical_rhs_maximum(rhs),
{
    match rhs {
        RhsModel::Constant { .. } => 0,
        RhsModel::Periodic { dimension, table, .. } => {
            let period = table.len() as int;
            let used = if dimension < table.len() {
                dimension as int
            } else {
                period
            };
            let part = table.take(used);
            let row = lemma_maximum_attained(part);
            vstd::arithmetic::div_mod::lemma_small_mod(row as nat, table.len());
            assert forall|other: int| 0 <= other < dimension implies problem::magnitude(
                #[trigger] rhs.mantissa(other),
            ) <= relation::logical_rhs_maximum(rhs) by {
                let index = other % period;
                assert(0 <= index < period);
                if dimension < table.len() {
                    vstd::arithmetic::div_mod::lemma_small_mod(other as nat, table.len());
                }
                assert(part[index] == table[index]);
                matrix::lemma_max_magnitude(part, index);
            }
            row
        },
    }
}

/// Where a plan is refused as infeasible, every witness leaves some residual
/// out of range.
pub proof fn infeasible_problems_have_no_relation(
    model: GeneratedModel,
    certificate: GeneratorCertificate,
    plan: PlanModel,
    witness: Seq<i128>,
) -> (row: int)
    requires
        generated::sound(model, certificate),
        relation::plan_of(evaluator::exact_bounds_of(certificate)) == Ok::<
            PlanModel,
            RelationError,
        >(plan),
        !relation::feasible(plan, relation::logical_rhs_maximum(model.rhs)),
        witness.len() == model.matrix.dimension(),
    ensures
        0 <= row < model.matrix.dimension(),
        !relation::in_residual_range(
            relation::residual(
                model.matrix,
                model.rhs,
                plan.rhs_alignment_shift,
                witness,
                row,
            ),
        ),
{
    lemma_powers();
    let row = logical_maximum_is_attained(model.rhs);
    lemma_row_parts(model, certificate, plan, witness, row);
    let scale = pow2(plan.rhs_alignment_shift) as int;
    lemma_pow2_pos(plan.rhs_alignment_shift);
    matrix_laws::lemma_magnitude_product(model.rhs.mantissa(row), scale);
    row
}

/// A manufactured right-hand side is met exactly by the all-ones vector: every
/// residual is zero.
pub proof fn manufactured_systems_are_solved_by_ones(
    matrix: MatrixModel,
    seed: Seq<u8>,
    rhs: RhsModel,
    witness: Seq<i128>,
    row: int,
)
    requires
        matrix.wf(),
        generator::compiled_rhs(problem::RhsSpec::ManufacturedOnesV1, matrix, seed) == Ok::<
            RhsModel,
            problem::ProblemError,
        >(rhs),
        witness.len() == matrix.dimension(),
        forall|i: int| 0 <= i < witness.len() ==> #[trigger] witness[i] == pow2(64),
        0 <= row < matrix.dimension(),
    ensures
        relation::residual(matrix, rhs, 64, witness, row) == 0,
{
    matrix_laws::manufactured_rhs_is_matrix_times_ones(matrix, seed, row);
    let vector = relation::integers(witness);
    let unit = pow2(64) as int;
    let coefficient = |column: int| matrix.coefficient(row, column);
    let product = |column: int| matrix.coefficient(row, column) * vector[column];
    let scaled = |column: int| unit * coefficient(column);
    assert forall|column: int| 0 <= column < matrix.dimension() implies #[trigger] product(column)
        == scaled(column) by {
        assert(vector[column] == witness[column] as int);
        let c = matrix.coefficient(row, column);
        assert(c * unit == unit * c) by (nonlinear_arith);
    }
    sums::lemma_sum_equal(matrix.dimension(), product, scaled);
    sums::lemma_sum_scale(matrix.dimension(), unit, coefficient);
    let total = sums::sum_below(matrix.dimension(), coefficient);
    assert(unit * total == total * unit) by (nonlinear_arith);
}

/// A verifier that only sees evaluator metadata derives the plan of the
/// problem.
pub proof fn metadata_gives_the_problem_plan(
    model: GeneratedModel,
    certificate: GeneratorCertificate,
    metadata: PublicEvaluationMetadata,
    plan: PlanModel,
)
    requires
        generated::sound(model, certificate),
        evaluator::metadata_of(model, certificate, metadata),
        relation::problem_plan(evaluator::exact_bounds_of(certificate), model.rhs) == Ok::<
            PlanModel,
            RelationError,
        >(plan),
    ensures
        metadata.domain.logical_dimension == metadata.exact_bounds.logical_dimension,
        relation::plan_of(metadata.exact_bounds) == Ok::<PlanModel, RelationError>(plan),
{
}

/// A value is below two to the power of its bit length, shifted along.
proof fn lemma_shifted_bit_length(value: nat, bound: nat, shift: nat)
    requires
        value <= bound,
    ensures
        value * pow2(shift) < pow2(evaluator::bit_length(bound) + shift),
{
    powers::lemma_padded(bound + 1);
    lemma_pow2_adds(evaluator::bit_length(bound), shift);
    lemma_pow2_pos(shift);
    let unit = pow2(shift) as int;
    let top = pow2(evaluator::bit_length(bound)) as int;
    assert(value * unit < top * unit) by (nonlinear_arith)
        requires
            value < top,
            0 < unit,
    ;
}

proof fn lemma_pow2_at_most(small: nat, large: nat)
    requires
        small <= large,
    ensures
        pow2(small) <= pow2(large),
{
    if small < large {
        lemma_pow2_strictly_increases(small, large);
    }
}

/// The diagnosed bit counts are sound: in a modulus of that many bits no row
/// identity and no difference of squared norms wraps.
///
/// The matrix-vector part is at most the row-sum bound times the witness bound,
/// the right-hand side at most its own bound, and residuals stay below theirs.
pub proof fn diagnosed_moduli_do_not_wrap(
    bounds: ExactArithmeticBounds,
    witness_magnitude_bits: u16,
    witness_fractional_bits: u8,
    residual_magnitude_bits: u16,
    diagnostics: ExactNoWrapDiagnostics,
    matrix_part: int,
    rhs_part: int,
    claimed: int,
    modulus: nat,
)
    requires
        bounds.diagnosed(
            witness_magnitude_bits,
            witness_fractional_bits,
            residual_magnitude_bits,
            diagnostics,
        ),
        problem::magnitude(matrix_part) <= bounds.maximum_absolute_row_sum_mantissa as nat * pow2(
            witness_magnitude_bits as nat,
        ),
        problem::magnitude(rhs_part) <= bounds.maximum_absolute_rhs_mantissa,
        problem::magnitude(claimed) < pow2(residual_magnitude_bits as nat),
        modulus >= pow2(diagnostics.minimum_safe_modulus_bits as nat),
    ensures
        ({
            let difference = matrix_part * pow2(diagnostics.matrix_term_alignment_shift as nat)
                - rhs_part * pow2(diagnostics.rhs_alignment_shift as nat) - claimed;
            &&& problem::magnitude(difference) < pow2(
                diagnostics.row_identity_difference_strict_bound_bits as nat,
            )
            &&& difference % (modulus as int) == 0 <==> difference == 0
        }),
{
    let matrix_shift = diagnostics.matrix_term_alignment_shift as nat;
    let rhs_shift = diagnostics.rhs_alignment_shift as nat;
    let witness_bits = witness_magnitude_bits as nat;
    let row_sum = bounds.maximum_absolute_row_sum_mantissa as nat;
    let matrix_bits = diagnostics.matrix_vector_absolute_value_strict_bound_bits as nat;
    let rhs_bits = diagnostics.rhs_absolute_value_strict_bound_bits as nat;
    let residual_bits = residual_magnitude_bits as nat;
    let row_bits = diagnostics.row_identity_difference_strict_bound_bits as nat;
    let scaled_matrix = matrix_part * pow2(matrix_shift);
    let scaled_rhs = rhs_part * pow2(rhs_shift);
    lemma_shifted_bit_length(row_sum, row_sum, witness_bits + matrix_shift);
    lemma_pow2_adds(witness_bits, matrix_shift);
    matrix_laws::lemma_magnitude_product(matrix_part, pow2(matrix_shift) as int);
    matrix_laws::lemma_magnitude_product(rhs_part, pow2(rhs_shift) as int);
    lemma_shifted_bit_length(
        problem::magnitude(rhs_part),
        bounds.maximum_absolute_rhs_mantissa as nat,
        rhs_shift,
    );
    assert(problem::magnitude(scaled_matrix) < pow2(matrix_bits)) by {
        let size = problem::magnitude(matrix_part) as int;
        let w = pow2(witness_bits) as int;
        let s = pow2(matrix_shift) as int;
        assert(size * s <= row_sum * (w * s)) by (nonlinear_arith)
            requires
                size <= row_sum * w,
                0 <= s,
        ;
        assert(matrix_bits == evaluator::bit_length(row_sum) + (witness_bits + matrix_shift));
    }
    assert(problem::magnitude(scaled_rhs) < pow2(rhs_bits));
    let top = (row_bits - 2) as nat;
    lemma_pow2_at_most(matrix_bits, top);
    lemma_pow2_at_most(rhs_bits, top);
    lemma_pow2_at_most(residual_bits, top);
    lemma_pow2_unfold((top + 1) as nat);
    lemma_pow2_unfold((top + 2) as nat);
    let difference = scaled_matrix - scaled_rhs - claimed;
    assert(problem::magnitude(difference) < pow2(row_bits));
    lemma_pow2_at_most(row_bits, diagnostics.minimum_safe_modulus_bits as nat);
    lemma_small_multiple(difference, modulus);
}

/// The diagnosed norm bits bound every squared norm of residuals in their
/// range, and so the difference of two of them.
pub proof fn diagnosed_norms_do_not_wrap(
    bounds: ExactArithmeticBounds,
    witness_magnitude_bits: u16,
    witness_fractional_bits: u8,
    residual_magnitude_bits: u16,
    diagnostics: ExactNoWrapDiagnostics,
    residuals: Seq<int>,
    modulus: nat,
)
    requires
        bounds.diagnosed(
            witness_magnitude_bits,
            witness_fractional_bits,
            residual_magnitude_bits,
            diagnostics,
        ),
        0 < residuals.len() == bounds.logical_dimension,
        forall|i: int|
            0 <= i < residuals.len() ==> problem::magnitude(#[trigger] residuals[i]) < pow2(
                residual_magnitude_bits as nat,
            ),
        modulus >= pow2(diagnostics.minimum_safe_modulus_bits as nat),
    ensures
        0 <= sums::sum_below(residuals.len(), |i: int| residuals[i] * residuals[i]) < pow2(
            diagnostics.residual_norm_strict_bound_bits as nat,
        ),
        pow2(diagnostics.norm_identity_difference_strict_bound_bits as nat) < modulus,
{
    let bits = residual_magnitude_bits as nat;
    let unit = pow2(bits) as int;
    let square = |i: int| residuals[i] * residuals[i];
    let bound = unit * unit - 1;
    lemma_pow2_pos(bits);
    assert forall|i: int| 0 <= i < residuals.len() implies 0 <= #[trigger] square(i) && square(i)
        <= bound by {
        let r = residuals[i];
        assert(problem::magnitude(residuals[i]) < pow2(bits));
        assert(0 <= r * r <= unit * unit - 1) by (nonlinear_arith)
            requires
                -unit < r < unit,
        ;
    }
    let count = residuals.len();
    sums::lemma_sum_at_most(count, square, bound);
    let nothing = |i: int| 0int;
    sums::lemma_sum_zero(count, nothing);
    sums::lemma_sum_monotonic(count, nothing, square);
    powers::lemma_padded(count);
    lemma_pow2_adds(bits, bits);
    lemma_pow2_adds(2 * bits, powers::ceil_log2(count));
    let top = pow2(powers::ceil_log2(count)) as int;
    let wide = unit * unit;
    assert(count * bound < wide * top) by (nonlinear_arith)
        requires
            0 < count <= top,
            bound == wide - 1,
            0 < wide,
    ;
    lemma_pow2_strictly_increases(
        diagnostics.norm_identity_difference_strict_bound_bits as nat,
        diagnostics.minimum_safe_modulus_bits as nat,
    );
}

/// The scales of a plan: residuals live at the scale of matrix times witness,
/// the right-hand side is shifted up to that scale, and the squared norm has
/// twice as many fractional bits. A plan exists where there is a row and the
/// right-hand side is no finer than that scale.
pub proof fn plans_align_the_scales(bounds: ExactArithmeticBounds)
    ensures
        relation::plan_of(bounds) is Ok <==> 0 < bounds.logical_dimension
            && bounds.rhs_fractional_bits <= 64 + bounds.matrix_fractional_bits,
        relation::plan_of(bounds) matches Ok(plan) ==> {
            &&& plan.bounds == bounds
            &&& plan.relation_fractional_bits == 64 + bounds.matrix_fractional_bits
            &&& plan.rhs_alignment_shift + bounds.rhs_fractional_bits
                == plan.relation_fractional_bits
            &&& plan.squared_l2_denominator_power == 2 * plan.relation_fractional_bits
            &&& plan.no_wrap.matrix_term == bounds.maximum_absolute_row_sum_mantissa * pow2(127)
            &&& plan.no_wrap.scaled_rhs == bounds.maximum_absolute_rhs_mantissa * pow2(
                plan.rhs_alignment_shift,
            )
            &&& plan.no_wrap.row_identity == plan.no_wrap.matrix_term + plan.no_wrap.scaled_rhs
                + pow2(68)
            &&& plan.no_wrap.squared_l2 == bounds.logical_dimension * pow2(136)
        },
{
}

/// Each further residual adds its square to the squared norm, which starts at
/// zero.
pub proof fn norms_add_squares(residuals: Seq<i128>, count: nat)
    ensures
        relation::squared_sum(residuals, 0) == 0,
        relation::squared_sum(residuals, count + 1) - relation::squared_sum(residuals, count)
            == residuals[count as int] * residuals[count as int],
{
}

/// What relating a witness to a compiled problem gives. It succeeds exactly
/// where the witness has the dimension, the plan exists, and every row's exact
/// defect, matrix row times witness less the right-hand side at the same scale,
/// lies in `-2^68..2^68`. It then records the witness, those defects, the sum of
/// their squares and its scale.
pub proof fn relations_hold_the_exact_defects(
    bounds: ExactArithmeticBounds,
    matrix: MatrixModel,
    rhs: RhsModel,
    witness: Seq<i128>,
    result: Result<ExactRelation, RelationError>,
    row: int,
)
    requires
        relation::relation_outcome(bounds, matrix, rhs, witness, result),
        0 <= row < matrix.dimension(),
    ensures
        result matches Ok(related) ==> {
            let shift = (64 + bounds.matrix_fractional_bits - bounds.rhs_fractional_bits) as nat;
            &&& bounds.rhs_fractional_bits <= 64 + bounds.matrix_fractional_bits
            &&& witness.len() == matrix.dimension()
            &&& related@.witness == witness
            &&& related@.residuals.len() == matrix.dimension()
            &&& related@.residuals[row] == sums::sum_below(
                matrix.dimension(),
                |column: int| matrix.coefficient(row, column) * witness[column],
            ) - rhs.mantissa(row) * pow2(shift)
            &&& -0x10_0000_0000_0000_0000 <= related@.residuals[row] < 0x10_0000_0000_0000_0000
            &&& related@.squared_l2_numerator == relation::squared_sum(
                related@.residuals,
                related@.residuals.len(),
            )
            &&& related@.squared_l2_denominator_power == 128 + 2 * bounds.matrix_fractional_bits
        },
        result is Err && witness.len() == matrix.dimension() && relation::problem_plan(
            bounds,
            rhs,
        ) is Ok ==> exists|out: int|
            0 <= out < matrix.dimension() && !relation::in_residual_range(
                #[trigger] relation::residual(
                    matrix,
                    rhs,
                    relation::problem_plan(bounds, rhs)->Ok_0.rhs_alignment_shift,
                    witness,
                    out,
                ),
            ),
{
    if let Ok(related) = result {
        let plan = relation::problem_plan(bounds, rhs)->Ok_0;
        assert(relation::in_residual_range(related@.residuals[row] as int));
        let left = |column: int| matrix.coefficient(row, column) * relation::integers(witness)[column];
        let right = |column: int| matrix.coefficient(row, column) * witness[column];
        sums::lemma_sum_equal(matrix.dimension(), left, right);
    }
}

/// What converting a solution gives: the fixed-point value of every entry in its
/// place, exactly where the lengths agree and every entry has one.
pub proof fn witnesses_hold_every_entry(
    values: Seq<Binary64>,
    dimension: usize,
    result: Result<FixedWitness, RelationError>,
    index: int,
)
    requires
        relation::witness_outcome(values, dimension, result),
    ensures
        result is Ok <==> values.len() == dimension && forall|i: int|
            0 <= i < values.len() ==> binary64::fixed_point((#[trigger] values[i])@) is Some,
        result matches Ok(witness) ==> witness@.len() == dimension && (0 <= index < dimension
            ==> binary64::fixed_point(values[index]@) == Some(witness@[index])),
{
    if let Ok(witness) = result {
        assert forall|i: int| 0 <= i < values.len() implies binary64::fixed_point(
            (#[trigger] values[i])@,
        ) is Some by {
            assert(binary64::fixed_point(values[i]@) == Some(witness@[i]));
        }
        if 0 <= index < dimension {
            assert(binary64::fixed_point(values[index]@) == Some(witness@[index]));
        }
    }
}

/// Which fields are safe: their modulus exceeds both the largest row identity
/// and the largest squared norm.
pub proof fn safe_moduli_exceed_both_bounds(no_wrap: BoundsModel, modulus: nat)
    ensures
        relation::safe_modulus(no_wrap, modulus) <==> no_wrap.row_identity < modulus
            && no_wrap.squared_l2 < modulus,
{
}

/// A problem has a plan where its bounds have one and a witness can reach the
/// largest entry of its right-hand side: a row of the matrix gives up to the
/// matrix term, and a residual makes up for the rest.
pub proof fn plans_are_refused_where_no_witness_can_reach(
    bounds: ExactArithmeticBounds,
    rhs: RhsModel,
)
    ensures
        relation::plan_of(bounds) is Err ==> relation::problem_plan(bounds, rhs)
            == relation::plan_of(bounds),
        relation::plan_of(bounds) matches Ok(plan) ==> {
            let needed = relation::logical_rhs_maximum(rhs) * pow2(plan.rhs_alignment_shift);
            let reached = bounds.maximum_absolute_row_sum_mantissa * pow2(127) + pow2(68);
            &&& needed <= reached ==> relation::problem_plan(bounds, rhs) == Ok::<
                PlanModel,
                RelationError,
            >(plan)
            &&& reached < needed ==> relation::problem_plan(bounds, rhs) == Err::<
                PlanModel,
                RelationError,
            >(RelationError::InfeasiblePublicMagnitude)
        },
{
}

/// A residual is representable exactly from `-2^68` to `2^68 - 1`.
pub proof fn residuals_have_one_range(value: int)
    ensures
        relation::in_residual_range(value) <==> -pow2(68) <= value < pow2(68),
{
    lemma2_to64();
    lemma_pow2_adds(64, 4);
}

/// A refused witness is refused for its first entry without a fixed-point value,
/// and a vector of another length for its length.
pub proof fn witnesses_are_refused_at_the_first_entry(
    values: Seq<Binary64>,
    dimension: usize,
    result: Result<FixedWitness, RelationError>,
    index: int,
)
    requires
        relation::witness_outcome(values, dimension, result),
        values.len() <= usize::MAX,
    ensures
        values.len() != dimension ==> result == Err::<FixedWitness, RelationError>(
            RelationError::WrongLength { expected: dimension, actual: values.len() as usize },
        ),
        values.len() == dimension && 0 <= index < values.len() && binary64::fixed_point(
            values[index]@,
        ) is None && (forall|before: int|
            0 <= before < index ==> binary64::fixed_point((#[trigger] values[before])@) is Some)
            ==> result == Err::<FixedWitness, RelationError>(
            RelationError::WitnessOutOfRange { index: index as usize },
        ),
{
    if let Ok(witness) = result {
        if 0 <= index < values.len() {
            assert(binary64::fixed_point(values[index]@) == Some(witness@[index]));
        }
    }
}

/// A refused relation is refused for the first row whose exact residual has no
/// representation, once its length and its plan are right.
pub proof fn relations_are_refused_at_the_first_row(
    bounds: ExactArithmeticBounds,
    matrix: MatrixModel,
    rhs: RhsModel,
    witness: Seq<i128>,
    result: Result<ExactRelation, RelationError>,
    plan: PlanModel,
    row: int,
)
    requires
        relation::relation_outcome(bounds, matrix, rhs, witness, result),
        witness.len() <= usize::MAX,
        matrix.dimension() <= usize::MAX,
    ensures
        witness.len() != matrix.dimension() ==> result == Err::<ExactRelation, RelationError>(
            RelationError::WrongLength {
                expected: matrix.dimension() as usize,
                actual: witness.len() as usize,
            },
        ),
        witness.len() == matrix.dimension() ==> (relation::problem_plan(bounds, rhs) matches Err(
            refused,
        ) ==> result == Err::<ExactRelation, RelationError>(refused)),
        witness.len() == matrix.dimension() && relation::problem_plan(bounds, rhs) == Ok::<
            PlanModel,
            RelationError,
        >(plan) && 0 <= row < matrix.dimension() && !relation::in_residual_range(
            relation::residual(matrix, rhs, plan.rhs_alignment_shift, witness, row),
        ) && (forall|before: int|
            0 <= before < row ==> relation::in_residual_range(
                #[trigger] relation::residual(
                    matrix,
                    rhs,
                    plan.rhs_alignment_shift,
                    witness,
                    before,
                ),
            )) ==> result == Err::<ExactRelation, RelationError>(
            RelationError::ResidualOutOfRange { row: row as usize },
        ),
{
    if let Ok(related) = result {
        if witness.len() == matrix.dimension() && 0 <= row < matrix.dimension()
            && relation::problem_plan(bounds, rhs) == Ok::<PlanModel, RelationError>(plan) {
            assert(relation::relates(matrix, rhs, plan, witness, related@));
            assert(relation::in_residual_range(related@.residuals[row] as int));
        }
    }
}

} // verus!
