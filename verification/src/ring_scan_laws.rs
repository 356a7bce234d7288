//! In every commutative ring, evaluations are complete scans.

use vstd::arithmetic::power2::pow2;
use vstd::prelude::*;

use crate::evaluation;
use crate::evaluator;
use crate::generator::RhsModel;
use crate::matrix::MatrixModel;
use crate::mle;
use crate::mle::ScalarOps;
use crate::mle_laws;
use crate::powers;
use crate::ring_laws;
use crate::ring_laws::Expression;
use crate::scan_laws;
use crate::sums;
use crate::transfer_laws;

verus! {

/// `term(0) + ... + term(count - 1)` in a ring.
pub open spec fn ring_sum<S>(ops: ScalarOps<S>, count: nat, term: spec_fn(int) -> S) -> S
    decreases count,
{
    if count == 0 {
        ops.zero
    } else {
        (ops.sum)(ring_sum(ops, (count - 1) as nat, term), term(count - 1))
    }
}

/// The term of a matrix entry in a complete scan.
pub open spec fn entry_term<S>(
    ops: ScalarOps<S>,
    matrix: MatrixModel,
    row: Seq<S>,
    column: Seq<S>,
    i: int,
    j: int,
) -> S {
    (ops.product)(
        (ops.embed)(matrix.coefficient(i, j)),
        (ops.product)(mle::basis(ops, row, i), mle::basis(ops, column, j)),
    )
}

/// The multilinear extension of a matrix as a scan over all its entries.
pub open spec fn ring_matrix_scan<S>(
    ops: ScalarOps<S>,
    matrix: MatrixModel,
    row: Seq<S>,
    column: Seq<S>,
) -> S {
    ring_sum(
        ops,
        matrix.dimension(),
        |i: int|
            ring_sum(
                ops,
                matrix.dimension(),
                |j: int| entry_term(ops, matrix, row, column, i, j),
            ),
    )
}

/// The multilinear extension of a right-hand side as a scan over all entries.
pub open spec fn ring_rhs_scan<S>(ops: ScalarOps<S>, rhs: RhsModel, row: Seq<S>) -> S {
    ring_sum(
        ops,
        rhs.dimension(),
        |i: int| (ops.product)((ops.embed)(rhs.mantissa(i)), mle::basis(ops, row, i)),
    )
}

proof fn lemma_integer_sum(count: nat, left: spec_fn(int) -> int, right: spec_fn(int) -> int)
    requires
        forall|i: int| 0 <= i < count ==> #[trigger] left(i) == right(i),
    ensures
        ring_sum(mle_laws::integers(), count, left) == sums::sum_below(count, right),
    decreases count,
{
    if count > 0 {
        lemma_integer_sum((count - 1) as nat, left, right);
        assert(left(count - 1) == right(count - 1));
    }
}

proof fn lemma_integer_matrix_scan(matrix: MatrixModel, row: Seq<int>, column: Seq<int>)
    ensures
        ring_matrix_scan(mle_laws::integers(), matrix, row, column) == scan_laws::matrix_scan(
            matrix,
            row,
            column,
        ),
{
    let integers = mle_laws::integers();
    let dimension = matrix.dimension();
    let outer = |i: int|
        ring_sum(integers, dimension, |j: int| entry_term(integers, matrix, row, column, i, j));
    let direct = |i: int|
        sums::sum_below(
            dimension,
            |j: int| matrix.coefficient(i, j) * scan_laws::weight_pair(row, column, i, j),
        );
    assert forall|i: int| 0 <= i < dimension implies #[trigger] outer(i) == direct(i) by {
        lemma_integer_sum(
            dimension,
            |j: int| entry_term(integers, matrix, row, column, i, j),
            |j: int| matrix.coefficient(i, j) * scan_laws::weight_pair(row, column, i, j),
        );
    }
    lemma_integer_sum(dimension, outer, direct);
}

proof fn lemma_integer_rhs_scan(rhs: RhsModel, row: Seq<int>)
    ensures
        ring_rhs_scan(mle_laws::integers(), rhs, row) == scan_laws::rhs_scan(rhs, row),
{
    let integers = mle_laws::integers();
    lemma_integer_sum(
        rhs.dimension(),
        |i: int|
            (integers.product)((integers.embed)(rhs.mantissa(i)), mle::basis(integers, row, i)),
        |i: int| rhs.mantissa(i) * mle_laws::weight(row, i),
    );
}

proof fn lemma_related_sum<S, T>(
    left: ScalarOps<S>,
    right: ScalarOps<T>,
    related: spec_fn(S, T) -> bool,
    count: nat,
    first: spec_fn(int) -> S,
    second: spec_fn(int) -> T,
)
    requires
        transfer_laws::keeps(left, right, related),
        forall|i: int| 0 <= i < count ==> related(#[trigger] first(i), second(i)),
    ensures
        related(ring_sum(left, count, first), ring_sum(right, count, second)),
    decreases count,
{
    transfer_laws::lemma_constants(left, right, related, 0);
    if count > 0 {
        let fewer = (count - 1) as nat;
        lemma_related_sum(left, right, related, fewer, first, second);
        transfer_laws::lemma_sum(
            left,
            right,
            related,
            ring_sum(left, fewer, first),
            first(count - 1),
            ring_sum(right, fewer, second),
            second(count - 1),
        );
    }
}

proof fn lemma_related_entry<S, T>(
    left: ScalarOps<S>,
    right: ScalarOps<T>,
    related: spec_fn(S, T) -> bool,
    matrix: MatrixModel,
    row: Seq<S>,
    column: Seq<S>,
    other_row: Seq<T>,
    other_column: Seq<T>,
    i: int,
    j: int,
)
    requires
        transfer_laws::keeps(left, right, related),
        transfer_laws::points(related, row, other_row),
        transfer_laws::points(related, column, other_column),
    ensures
        related(
            entry_term(left, matrix, row, column, i, j),
            entry_term(right, matrix, other_row, other_column, i, j),
        ),
{
    let coefficient = matrix.coefficient(i, j);
    let a = mle::basis(left, row, i);
    let b = mle::basis(left, column, j);
    let c = mle::basis(right, other_row, i);
    let d = mle::basis(right, other_column, j);
    transfer_laws::lemma_constants(left, right, related, coefficient);
    transfer_laws::lemma_basis(left, right, related, row, other_row, i);
    transfer_laws::lemma_basis(left, right, related, column, other_column, j);
    transfer_laws::lemma_product(left, right, related, a, b, c, d);
    transfer_laws::lemma_product(
        left,
        right,
        related,
        (left.embed)(coefficient),
        (left.product)(a, b),
        (right.embed)(coefficient),
        (right.product)(c, d),
    );
}

proof fn lemma_related_matrix_scan<S, T>(
    left: ScalarOps<S>,
    right: ScalarOps<T>,
    related: spec_fn(S, T) -> bool,
    matrix: MatrixModel,
    row: Seq<S>,
    column: Seq<S>,
    other_row: Seq<T>,
    other_column: Seq<T>,
)
    requires
        transfer_laws::keeps(left, right, related),
        transfer_laws::points(related, row, other_row),
        transfer_laws::points(related, column, other_column),
    ensures
        related(
            ring_matrix_scan(left, matrix, row, column),
            ring_matrix_scan(right, matrix, other_row, other_column),
        ),
{
    let dimension = matrix.dimension();
    let first = |i: int|
        ring_sum(left, dimension, |j: int| entry_term(left, matrix, row, column, i, j));
    let second = |i: int|
        ring_sum(
            right,
            dimension,
            |j: int| entry_term(right, matrix, other_row, other_column, i, j),
        );
    assert forall|i: int| 0 <= i < dimension implies related(#[trigger] first(i), second(i)) by {
        let inner = |j: int| entry_term(left, matrix, row, column, i, j);
        let other = |j: int| entry_term(right, matrix, other_row, other_column, i, j);
        assert forall|j: int| 0 <= j < dimension implies related(
            #[trigger] inner(j),
            other(j),
        ) by {
            lemma_related_entry(
                left,
                right,
                related,
                matrix,
                row,
                column,
                other_row,
                other_column,
                i,
                j,
            );
        }
        lemma_related_sum(left, right, related, dimension, inner, other);
    }
    lemma_related_sum(left, right, related, dimension, first, second);
}

proof fn lemma_related_rhs_scan<S, T>(
    left: ScalarOps<S>,
    right: ScalarOps<T>,
    related: spec_fn(S, T) -> bool,
    rhs: RhsModel,
    row: Seq<S>,
    other_row: Seq<T>,
)
    requires
        transfer_laws::keeps(left, right, related),
        transfer_laws::points(related, row, other_row),
    ensures
        related(ring_rhs_scan(left, rhs, row), ring_rhs_scan(right, rhs, other_row)),
{
    let first = |i: int|
        (left.product)((left.embed)(rhs.mantissa(i)), mle::basis(left, row, i));
    let second = |i: int|
        (right.product)((right.embed)(rhs.mantissa(i)), mle::basis(right, other_row, i));
    assert forall|i: int| 0 <= i < rhs.dimension() implies related(
        #[trigger] first(i),
        second(i),
    ) by {
        transfer_laws::lemma_constants(left, right, related, rhs.mantissa(i));
        transfer_laws::lemma_basis(left, right, related, row, other_row, i);
        transfer_laws::lemma_product(
            left,
            right,
            related,
            (left.embed)(rhs.mantissa(i)),
            mle::basis(left, row, i),
            (right.embed)(rhs.mantissa(i)),
            mle::basis(right, other_row, i),
        );
    }
    lemma_related_sum(left, right, related, rhs.dimension(), first, second);
}

proof fn lemma_related_padded_matrix<S, T>(
    left: ScalarOps<S>,
    right: ScalarOps<T>,
    related: spec_fn(S, T) -> bool,
    matrix: MatrixModel,
    row: Seq<S>,
    column: Seq<S>,
    other_row: Seq<T>,
    other_column: Seq<T>,
)
    requires
        transfer_laws::keeps(left, right, related),
        transfer_laws::points(related, row, other_row),
        transfer_laws::points(related, column, other_column),
        row.len() == column.len(),
        powers::ceil_log2(matrix.dimension()) <= row.len(),
    ensures
        related(
            evaluator::padded_matrix_value(left, matrix, row, column),
            evaluator::padded_matrix_value(right, matrix, other_row, other_column),
        ),
{
    let extra = (row.len() - powers::ceil_log2(matrix.dimension())) as nat;
    let skip = extra as int;
    transfer_laws::lemma_zero_prefix_pairs(
        left,
        right,
        related,
        row,
        column,
        other_row,
        other_column,
        extra,
    );
    transfer_laws::lemma_skip(related, row, other_row, skip);
    transfer_laws::lemma_skip(related, column, other_column, skip);
    transfer_laws::related_scalars_give_related_matrix_values(
        left,
        right,
        related,
        matrix,
        row.skip(skip),
        column.skip(skip),
        other_row.skip(skip),
        other_column.skip(skip),
    );
    transfer_laws::lemma_product(
        left,
        right,
        related,
        evaluator::zero_prefix_pairs(left, row, column, extra),
        evaluation::matrix_value(left, matrix, row.skip(skip), column.skip(skip)),
        evaluator::zero_prefix_pairs(right, other_row, other_column, extra),
        evaluation::matrix_value(right, matrix, other_row.skip(skip), other_column.skip(skip)),
    );
}

proof fn lemma_related_padded_rhs<S, T>(
    left: ScalarOps<S>,
    right: ScalarOps<T>,
    related: spec_fn(S, T) -> bool,
    rhs: RhsModel,
    row: Seq<S>,
    other_row: Seq<T>,
)
    requires
        transfer_laws::keeps(left, right, related),
        transfer_laws::points(related, row, other_row),
        powers::ceil_log2(rhs.dimension()) <= row.len(),
    ensures
        related(
            evaluator::padded_rhs_value(left, rhs, row),
            evaluator::padded_rhs_value(right, rhs, other_row),
        ),
{
    let extra = (row.len() - powers::ceil_log2(rhs.dimension())) as nat;
    let skip = extra as int;
    transfer_laws::lemma_zero_prefix(left, right, related, row, other_row, extra);
    transfer_laws::lemma_skip(related, row, other_row, skip);
    transfer_laws::related_scalars_give_related_rhs_values(
        left,
        right,
        related,
        rhs,
        row.skip(skip),
        other_row.skip(skip),
    );
    transfer_laws::lemma_product(
        left,
        right,
        related,
        evaluator::zero_prefix(left, row, extra),
        evaluation::rhs_value(left, rhs, row.skip(skip)),
        evaluator::zero_prefix(right, other_row, extra),
        evaluation::rhs_value(right, rhs, other_row.skip(skip)),
    );
}

/// Consecutive variables.
spec fn variables(start: nat, count: nat) -> Seq<Expression> {
    Seq::new(count, |i: int| ring_laws::variable((start + i) as nat))
}

/// The variables stand for a point that is part of a longer one.
proof fn lemma_variables<S>(ops: ScalarOps<S>, before: Seq<S>, point: Seq<S>, after: Seq<S>)
    requires
        ring_laws::commutative_ring(ops),
    ensures
        ({
            let whole = before + point + after;
            let related = ring_laws::stands_for(ops, whole);
            &&& transfer_laws::keeps(ring_laws::expressions(), ops, related)
            &&& transfer_laws::points(related, variables(before.len(), point.len()), point)
        }),
{
    let whole = before + point + after;
    let related = ring_laws::stands_for(ops, whole);
    let named = variables(before.len(), point.len());
    ring_laws::lemma_values_keep(ops, whole);
    assert forall|i: int| 0 <= i < named.len() implies related(#[trigger] named[i], point[i]) by {
        let expression = named[i];
        assert(expression == ring_laws::variable((before.len() + i) as nat));
        assert(ring_laws::value_at(ops, expression, whole) == whole[before.len() + i]);
    }
}

/// The variables of a pair of points stand for both.
proof fn lemma_variable_pair<S>(ops: ScalarOps<S>, row: Seq<S>, column: Seq<S>)
    requires
        ring_laws::commutative_ring(ops),
    ensures
        ({
            let related = ring_laws::stands_for(ops, row + column);
            &&& transfer_laws::keeps(ring_laws::expressions(), ops, related)
            &&& transfer_laws::points(related, variables(0, row.len()), row)
            &&& transfer_laws::points(related, variables(row.len(), column.len()), column)
        }),
{
    let nothing = Seq::<S>::empty();
    lemma_variables(ops, nothing, row, column);
    lemma_variables(ops, row, column, nothing);
    assert(nothing + row + column =~= row + column);
    assert(row + column + nothing =~= row + column);
}

/// In every commutative ring, a matrix evaluation is the complete scan: the sum
/// over all rows and columns of the embedded mantissa times the two basis
/// weights. A zero-padded evaluation is the same scan in the larger domain.
pub proof fn ring_matrix_evaluation_is_the_complete_scan<S>(
    ops: ScalarOps<S>,
    matrix: MatrixModel,
    row: Seq<S>,
    column: Seq<S>,
)
    requires
        ring_laws::commutative_ring(ops),
        matrix.wf(),
        row.len() == column.len(),
        powers::ceil_log2(matrix.dimension()) <= row.len(),
    ensures
        row.len() == powers::ceil_log2(matrix.dimension()) ==> evaluation::matrix_value(
            ops,
            matrix,
            row,
            column,
        ) == ring_matrix_scan(ops, matrix, row, column),
        evaluator::padded_matrix_value(ops, matrix, row, column) == ring_matrix_scan(
            ops,
            matrix,
            row,
            column,
        ),
{
    let free = ring_laws::expressions();
    let integers = mle_laws::integers();
    let count = row.len();
    let x = variables(0, count);
    let y = variables(count, count);
    let value = evaluator::padded_matrix_value(free, matrix, x, y);
    let scan = ring_matrix_scan(free, matrix, x, y);
    let point = row + column;
    let related = ring_laws::stands_for(ops, point);
    lemma_variable_pair(ops, row, column);
    lemma_related_padded_matrix(free, ops, related, matrix, x, y, row, column);
    lemma_related_matrix_scan(free, ops, related, matrix, x, y, row, column);
    ring_laws::integers_are_a_ring();
    assert forall|whole: Seq<int>| whole.len() == point.len() implies #[trigger] ring_laws::value_at(
        integers,
        value,
        whole,
    ) == ring_laws::value_at(integers, scan, whole) by {
        let p = whole.take(count as int);
        let q = whole.skip(count as int);
        let stands = ring_laws::stands_for(integers, whole);
        assert(p + q =~= whole);
        lemma_variable_pair(integers, p, q);
        lemma_related_padded_matrix(free, integers, stands, matrix, x, y, p, q);
        lemma_related_matrix_scan(free, integers, stands, matrix, x, y, p, q);
        transfer_laws::padded_matrix_evaluation_is_the_complete_scan(matrix, p, q);
        lemma_integer_matrix_scan(matrix, p, q);
    }
    ring_laws::integer_identities_hold_in_every_ring(ops, value, scan, point);
    if row.len() == powers::ceil_log2(matrix.dimension()) {
        assert(row.skip(0) =~= row);
        assert(column.skip(0) =~= column);
        ring_laws::lemma_product_one(ops, evaluation::matrix_value(ops, matrix, row, column));
    }
}

/// In every commutative ring, a right-hand-side evaluation is the complete
/// scan. A zero-padded evaluation is the same scan in the larger domain.
pub proof fn ring_rhs_evaluation_is_the_complete_scan<S>(
    ops: ScalarOps<S>,
    rhs: RhsModel,
    row: Seq<S>,
)
    requires
        ring_laws::commutative_ring(ops),
        rhs.wf(),
        powers::ceil_log2(rhs.dimension()) <= row.len(),
    ensures
        row.len() == powers::ceil_log2(rhs.dimension()) ==> evaluation::rhs_value(ops, rhs, row)
            == ring_rhs_scan(ops, rhs, row),
        evaluator::padded_rhs_value(ops, rhs, row) == ring_rhs_scan(ops, rhs, row),
{
    let free = ring_laws::expressions();
    let integers = mle_laws::integers();
    let nowhere = Seq::<S>::empty();
    let x = variables(0, row.len());
    let value = evaluator::padded_rhs_value(free, rhs, x);
    let scan = ring_rhs_scan(free, rhs, x);
    let related = ring_laws::stands_for(ops, row);
    assert(row + nowhere =~= row);
    lemma_variable_pair(ops, row, nowhere);
    lemma_related_padded_rhs(free, ops, related, rhs, x, row);
    lemma_related_rhs_scan(free, ops, related, rhs, x, row);
    ring_laws::integers_are_a_ring();
    assert forall|whole: Seq<int>| whole.len() == row.len() implies #[trigger] ring_laws::value_at(
        integers,
        value,
        whole,
    ) == ring_laws::value_at(integers, scan, whole) by {
        let stands = ring_laws::stands_for(integers, whole);
        assert(whole + Seq::<int>::empty() =~= whole);
        lemma_variable_pair(integers, whole, Seq::<int>::empty());
        lemma_related_padded_rhs(free, integers, stands, rhs, x, whole);
        lemma_related_rhs_scan(free, integers, stands, rhs, x, whole);
        transfer_laws::padded_rhs_evaluation_is_the_complete_scan(rhs, whole);
        lemma_integer_rhs_scan(rhs, whole);
    }
    ring_laws::integer_identities_hold_in_every_ring(ops, value, scan, row);
    if row.len() == powers::ceil_log2(rhs.dimension()) {
        assert(row.skip(0) =~= row);
        ring_laws::lemma_product_one(ops, evaluation::rhs_value(ops, rhs, row));
    }
}

/// In every commutative ring, a bounded index sum is the sum of the basis
/// weights of all indices below the bound.
pub proof fn ring_index_sums_are_weight_sums<S>(ops: ScalarOps<S>, point: Seq<S>, limit: int)
    requires
        ring_laws::commutative_ring(ops),
        0 <= limit <= pow2(point.len()),
    ensures
        mle::index_sum(ops, point, limit) == ring_sum(
            ops,
            limit as nat,
            |i: int| mle::basis(ops, point, i),
        ),
{
    let free = ring_laws::expressions();
    let integers = mle_laws::integers();
    let nowhere = Seq::<S>::empty();
    let x = variables(0, point.len());
    let weights = |i: int| mle::basis(free, x, i);
    let value = mle::index_sum(free, x, limit);
    let total = ring_sum(free, limit as nat, weights);
    let related = ring_laws::stands_for(ops, point);
    assert(point + nowhere =~= point);
    lemma_variable_pair(ops, point, nowhere);
    lemma_related_index_sums(free, ops, related, x, point, limit);
    ring_laws::integers_are_a_ring();
    assert forall|whole: Seq<int>| whole.len() == point.len() implies #[trigger] ring_laws::value_at(
        integers,
        value,
        whole,
    ) == ring_laws::value_at(integers, total, whole) by {
        let stands = ring_laws::stands_for(integers, whole);
        assert(whole + Seq::<int>::empty() =~= whole);
        lemma_variable_pair(integers, whole, Seq::<int>::empty());
        lemma_related_index_sums(free, integers, stands, x, whole, limit);
        mle_laws::index_sums_are_weight_sums(whole, limit);
        lemma_integer_sum(
            limit as nat,
            |i: int| mle::basis(integers, whole, i),
            |i: int| mle_laws::weight(whole, 0 + i),
        );
    }
    ring_laws::integer_identities_hold_in_every_ring(ops, value, total, point);
}

proof fn lemma_related_index_sums<S, T>(
    left: ScalarOps<S>,
    right: ScalarOps<T>,
    related: spec_fn(S, T) -> bool,
    p: Seq<S>,
    q: Seq<T>,
    limit: int,
)
    requires
        transfer_laws::keeps(left, right, related),
        transfer_laws::points(related, p, q),
    ensures
        related(mle::index_sum(left, p, limit), mle::index_sum(right, q, limit)),
        related(
            ring_sum(left, limit as nat, |i: int| mle::basis(left, p, i)),
            ring_sum(right, limit as nat, |i: int| mle::basis(right, q, i)),
        ),
{
    transfer_laws::lemma_index_sum(left, right, related, p, q, limit);
    let first = |i: int| mle::basis(left, p, i);
    let second = |i: int| mle::basis(right, q, i);
    assert forall|i: int| 0 <= i < limit as nat implies related(#[trigger] first(i), second(i)) by {
        transfer_laws::lemma_basis(left, right, related, p, q, i);
    }
    lemma_related_sum(left, right, related, limit as nat, first, second);
}

/// In every commutative ring, a bounded equality sum is the sum of the products
/// of the two basis weights of all indices below the bound.
pub proof fn ring_equal_sums_are_weight_pairs<S>(
    ops: ScalarOps<S>,
    left: Seq<S>,
    right: Seq<S>,
    limit: int,
)
    requires
        ring_laws::commutative_ring(ops),
        left.len() == right.len(),
        0 <= limit <= pow2(left.len()),
    ensures
        mle::equal_sum(ops, left, right, limit) == ring_sum(
            ops,
            limit as nat,
            |i: int| (ops.product)(mle::basis(ops, left, i), mle::basis(ops, right, i)),
        ),
{
    let free = ring_laws::expressions();
    let integers = mle_laws::integers();
    let count = left.len();
    let x = variables(0, count);
    let y = variables(count, count);
    let value = mle::equal_sum(free, x, y, limit);
    let total = ring_sum(
        free,
        limit as nat,
        |i: int| (free.product)(mle::basis(free, x, i), mle::basis(free, y, i)),
    );
    let point = left + right;
    let related = ring_laws::stands_for(ops, point);
    lemma_variable_pair(ops, left, right);
    lemma_related_equal_sums(free, ops, related, x, y, left, right, limit);
    ring_laws::integers_are_a_ring();
    assert forall|whole: Seq<int>| whole.len() == point.len() implies #[trigger] ring_laws::value_at(
        integers,
        value,
        whole,
    ) == ring_laws::value_at(integers, total, whole) by {
        let p = whole.take(count as int);
        let q = whole.skip(count as int);
        let stands = ring_laws::stands_for(integers, whole);
        assert(p + q =~= whole);
        lemma_variable_pair(integers, p, q);
        lemma_related_equal_sums(free, integers, stands, x, y, p, q, limit);
        mle_laws::equal_sums_are_weight_pairs(p, q, limit);
        lemma_integer_sum(
            limit as nat,
            |i: int| (integers.product)(mle::basis(integers, p, i), mle::basis(integers, q, i)),
            |i: int| mle_laws::weight(p, i) * mle_laws::weight(q, i),
        );
    }
    ring_laws::integer_identities_hold_in_every_ring(ops, value, total, point);
}

proof fn lemma_related_equal_sums<S, T>(
    left: ScalarOps<S>,
    right: ScalarOps<T>,
    related: spec_fn(S, T) -> bool,
    p: Seq<S>,
    p2: Seq<S>,
    q: Seq<T>,
    q2: Seq<T>,
    limit: int,
)
    requires
        transfer_laws::keeps(left, right, related),
        transfer_laws::points(related, p, q),
        transfer_laws::points(related, p2, q2),
        p.len() == p2.len(),
    ensures
        related(mle::equal_sum(left, p, p2, limit), mle::equal_sum(right, q, q2, limit)),
        related(
            ring_sum(
                left,
                limit as nat,
                |i: int| (left.product)(mle::basis(left, p, i), mle::basis(left, p2, i)),
            ),
            ring_sum(
                right,
                limit as nat,
                |i: int| (right.product)(mle::basis(right, q, i), mle::basis(right, q2, i)),
            ),
        ),
{
    transfer_laws::lemma_equal_sum(left, right, related, p, p2, q, q2, limit);
    let first = |i: int| (left.product)(mle::basis(left, p, i), mle::basis(left, p2, i));
    let second = |i: int| (right.product)(mle::basis(right, q, i), mle::basis(right, q2, i));
    assert forall|i: int| 0 <= i < limit as nat implies related(#[trigger] first(i), second(i)) by {
        transfer_laws::lemma_basis(left, right, related, p, q, i);
        transfer_laws::lemma_basis(left, right, related, p2, q2, i);
        transfer_laws::lemma_product(
            left,
            right,
            related,
            mle::basis(left, p, i),
            mle::basis(left, p2, i),
            mle::basis(right, q, i),
            mle::basis(right, q2, i),
        );
    }
    lemma_related_sum(left, right, related, limit as nat, first, second);
}

/// In every commutative ring, a bounded shifted sum pairs the basis weight of
/// each index below the bound with that of its displaced counterpart.
pub proof fn ring_shifted_sums_are_displaced_pairs<S>(
    ops: ScalarOps<S>,
    left: Seq<S>,
    right: Seq<S>,
    limit: int,
    shift: int,
    carry: int,
)
    requires
        ring_laws::commutative_ring(ops),
        left.len() == right.len(),
        0 <= limit < pow2(left.len()),
        0 <= shift < pow2(left.len()),
        0 <= carry <= 1,
        limit + shift + carry <= pow2(left.len()),
    ensures
        mle::shifted_sum(ops, left, right, limit, shift, carry) == ring_sum(
            ops,
            limit as nat,
            |i: int|
                (ops.product)(
                    mle::basis(ops, left, i),
                    mle::basis(ops, right, i + shift + carry),
                ),
        ),
{
    let free = ring_laws::expressions();
    let integers = mle_laws::integers();
    let count = left.len();
    let x = variables(0, count);
    let y = variables(count, count);
    let value = mle::shifted_sum(free, x, y, limit, shift, carry);
    let total = ring_sum(
        free,
        limit as nat,
        |i: int| (free.product)(mle::basis(free, x, i), mle::basis(free, y, i + shift + carry)),
    );
    let point = left + right;
    let related = ring_laws::stands_for(ops, point);
    lemma_variable_pair(ops, left, right);
    lemma_related_shifted_sums(free, ops, related, x, y, left, right, limit, shift, carry);
    ring_laws::integers_are_a_ring();
    assert forall|whole: Seq<int>| whole.len() == point.len() implies #[trigger] ring_laws::value_at(
        integers,
        value,
        whole,
    ) == ring_laws::value_at(integers, total, whole) by {
        let p = whole.take(count as int);
        let q = whole.skip(count as int);
        let stands = ring_laws::stands_for(integers, whole);
        assert(p + q =~= whole);
        lemma_variable_pair(integers, p, q);
        lemma_related_shifted_sums(free, integers, stands, x, y, p, q, limit, shift, carry);
        mle_laws::shifted_sums_are_displaced_pairs(p, q, limit, shift, carry);
        lemma_integer_sum(
            limit as nat,
            |i: int|
                (integers.product)(
                    mle::basis(integers, p, i),
                    mle::basis(integers, q, i + shift + carry),
                ),
            |i: int| mle_laws::weight(p, i) * mle_laws::weight(q, i + shift + carry),
        );
    }
    ring_laws::integer_identities_hold_in_every_ring(ops, value, total, point);
}

proof fn lemma_related_shifted_sums<S, T>(
    left: ScalarOps<S>,
    right: ScalarOps<T>,
    related: spec_fn(S, T) -> bool,
    p: Seq<S>,
    p2: Seq<S>,
    q: Seq<T>,
    q2: Seq<T>,
    limit: int,
    shift: int,
    carry: int,
)
    requires
        transfer_laws::keeps(left, right, related),
        transfer_laws::points(related, p, q),
        transfer_laws::points(related, p2, q2),
        p.len() == p2.len(),
    ensures
        related(
            mle::shifted_sum(left, p, p2, limit, shift, carry),
            mle::shifted_sum(right, q, q2, limit, shift, carry),
        ),
        related(
            ring_sum(
                left,
                limit as nat,
                |i: int|
                    (left.product)(mle::basis(left, p, i), mle::basis(left, p2, i + shift + carry)),
            ),
            ring_sum(
                right,
                limit as nat,
                |i: int|
                    (right.product)(
                        mle::basis(right, q, i),
                        mle::basis(right, q2, i + shift + carry),
                    ),
            ),
        ),
{
    transfer_laws::lemma_shifted_sum(left, right, related, p, p2, q, q2, limit, shift, carry);
    let first = |i: int|
        (left.product)(mle::basis(left, p, i), mle::basis(left, p2, i + shift + carry));
    let second = |i: int|
        (right.product)(mle::basis(right, q, i), mle::basis(right, q2, i + shift + carry));
    assert forall|i: int| 0 <= i < limit as nat implies related(#[trigger] first(i), second(i)) by {
        transfer_laws::lemma_basis(left, right, related, p, q, i);
        transfer_laws::lemma_basis(left, right, related, p2, q2, i + shift + carry);
        transfer_laws::lemma_product(
            left,
            right,
            related,
            mle::basis(left, p, i),
            mle::basis(left, p2, i + shift + carry),
            mle::basis(right, q, i),
            mle::basis(right, q2, i + shift + carry),
        );
    }
    lemma_related_sum(left, right, related, limit as nat, first, second);
}

/// One leading coordinate that is one makes a zero-padded matrix evaluation
/// vanish.
pub proof fn padded_matrix_evaluation_vanishes_outside<S>(
    ops: ScalarOps<S>,
    matrix: MatrixModel,
    row: Seq<S>,
    column: Seq<S>,
    at: int,
)
    requires
        ring_laws::commutative_ring(ops),
        row.len() == column.len(),
        0 <= at < row.len() - powers::ceil_log2(matrix.dimension()),
        row[at] == ops.one || column[at] == ops.one,
    ensures
        evaluator::padded_matrix_value(ops, matrix, row, column) == ops.zero,
{
    let extra = (row.len() - powers::ceil_log2(matrix.dimension())) as nat;
    lemma_zero_prefix_pairs_vanish(ops, row, column, extra, at);
    ring_laws::lemma_product_zero(
        ops,
        evaluation::matrix_value(ops, matrix, row.skip(extra as int), column.skip(extra as int)),
    );
}

proof fn lemma_zero_prefix_pairs_vanish<S>(
    ops: ScalarOps<S>,
    row: Seq<S>,
    column: Seq<S>,
    count: nat,
    at: int,
)
    requires
        ring_laws::commutative_ring(ops),
        0 <= at < count <= row.len(),
        row.len() == column.len(),
        row[at] == ops.one || column[at] == ops.one,
    ensures
        evaluator::zero_prefix_pairs(ops, row, column, count) == ops.zero,
    decreases count,
{
    let fewer = evaluator::zero_prefix_pairs(ops, row, column, (count - 1) as nat);
    let r = (ops.difference)(ops.one, row[count - 1]);
    let c = (ops.difference)(ops.one, column[count - 1]);
    if at == count - 1 {
        ring_laws::lemma_difference_vanishes(ops, ops.one);
        ring_laws::lemma_product_zero(ops, r);
        ring_laws::lemma_product_zero(ops, c);
        ring_laws::lemma_product_zero(ops, fewer);
    } else {
        lemma_zero_prefix_pairs_vanish(ops, row, column, (count - 1) as nat, at);
        ring_laws::lemma_product_zero(ops, (ops.product)(r, c));
    }
}

/// One leading coordinate that is one makes a zero-padded right-hand-side
/// evaluation vanish.
pub proof fn padded_rhs_evaluation_vanishes_outside<S>(
    ops: ScalarOps<S>,
    rhs: RhsModel,
    row: Seq<S>,
    at: int,
)
    requires
        ring_laws::commutative_ring(ops),
        0 <= at < row.len() - powers::ceil_log2(rhs.dimension()),
        row[at] == ops.one,
    ensures
        evaluator::padded_rhs_value(ops, rhs, row) == ops.zero,
{
    let extra = (row.len() - powers::ceil_log2(rhs.dimension())) as nat;
    lemma_zero_prefix_vanishes(ops, row, extra, at);
    ring_laws::lemma_product_zero(
        ops,
        evaluation::rhs_value(ops, rhs, row.skip(extra as int)),
    );
}

proof fn lemma_zero_prefix_vanishes<S>(ops: ScalarOps<S>, row: Seq<S>, count: nat, at: int)
    requires
        ring_laws::commutative_ring(ops),
        0 <= at < count <= row.len(),
        row[at] == ops.one,
    ensures
        evaluator::zero_prefix(ops, row, count) == ops.zero,
    decreases count,
{
    let fewer = evaluator::zero_prefix(ops, row, (count - 1) as nat);
    let r = (ops.difference)(ops.one, row[count - 1]);
    if at == count - 1 {
        ring_laws::lemma_difference_vanishes(ops, ops.one);
        ring_laws::lemma_product_zero(ops, fewer);
    } else {
        lemma_zero_prefix_vanishes(ops, row, (count - 1) as nat, at);
        ring_laws::lemma_product_zero(ops, r);
    }
}

/// The Boolean point of an index, its most significant bit first.
pub open spec fn boolean_point<S>(ops: ScalarOps<S>, index: int, bits: nat) -> Seq<S>
    decreases bits,
{
    if bits == 0 {
        Seq::empty()
    } else {
        boolean_point(ops, index / 2, (bits - 1) as nat).push(
            if index % 2 == 0 {
                ops.zero
            } else {
                ops.one
            },
        )
    }
}

/// At the Boolean point of an index only that index has weight.
proof fn lemma_boolean_basis<S>(ops: ScalarOps<S>, index: int, other: int, bits: nat)
    requires
        ring_laws::commutative_ring(ops),
        0 <= index < pow2(bits),
        0 <= other < pow2(bits),
    ensures
        boolean_point(ops, index, bits).len() == bits,
        mle::basis(ops, boolean_point(ops, index, bits), other) == (if other == index {
            ops.one
        } else {
            ops.zero
        }),
    decreases bits,
{
    vstd::arithmetic::power2::lemma2_to64();
    if bits > 0 {
        let fewer = (bits - 1) as nat;
        vstd::arithmetic::power2::lemma_pow2_unfold(bits);
        lemma_boolean_basis(ops, index / 2, other / 2, fewer);
        let point = boolean_point(ops, index, bits);
        let prefix = boolean_point(ops, index / 2, fewer);
        let last = point.last();
        assert(point.drop_last() =~= prefix);
        ring_laws::lemma_difference_vanishes(ops, ops.one);
        ring_laws::lemma_difference_restores(ops, ops.one, ops.zero);
        ring_laws::lemma_sum_zero(ops, (ops.difference)(ops.one, ops.zero));
        let factor = mle::bit_factor(ops, last, other % 2);
        assert(factor == (if other % 2 == index % 2 {
            ops.one
        } else {
            ops.zero
        }));
        ring_laws::lemma_product_one(ops, factor);
        ring_laws::lemma_product_zero(ops, factor);
        ring_laws::lemma_product_zero(ops, mle::basis(ops, prefix, other / 2));
    }
}

/// A sum in which only the term at `at` can differ from zero.
proof fn lemma_ring_sum_single<S>(
    ops: ScalarOps<S>,
    count: nat,
    term: spec_fn(int) -> S,
    at: int,
)
    requires
        ring_laws::commutative_ring(ops),
        0 <= at,
        forall|i: int| 0 <= i < count && i != at ==> #[trigger] term(i) == ops.zero,
    ensures
        ring_sum(ops, count, term) == (if at < count {
            term(at)
        } else {
            ops.zero
        }),
    decreases count,
{
    if count > 0 {
        lemma_ring_sum_single(ops, (count - 1) as nat, term, at);
        ring_laws::lemma_sum_zero(ops, ops.zero);
        ring_laws::lemma_sum_zero(ops, term(count - 1));
        ring_laws::lemma_sum_zero(ops, ring_sum(ops, (count - 1) as nat, term));
        if at != count - 1 {
            assert(term(count - 1) == ops.zero);
        }
    }
}

/// At the Boolean point of a row, a right-hand-side evaluation is the row's
/// entry, and zero past the last row.
pub proof fn rhs_evaluation_selects_entries<S>(ops: ScalarOps<S>, rhs: RhsModel, row: int)
    requires
        ring_laws::commutative_ring(ops),
        rhs.wf(),
        0 <= row < pow2(powers::ceil_log2(rhs.dimension())),
    ensures
        evaluation::rhs_value(
            ops,
            rhs,
            boolean_point(ops, row, powers::ceil_log2(rhs.dimension())),
        ) == (if row < rhs.dimension() {
            (ops.embed)(rhs.mantissa(row))
        } else {
            ops.zero
        }),
{
    let bits = powers::ceil_log2(rhs.dimension());
    let point = boolean_point(ops, row, bits);
    let term = |i: int| (ops.product)((ops.embed)(rhs.mantissa(i)), mle::basis(ops, point, i));
    powers::lemma_padded(rhs.dimension());
    lemma_boolean_basis(ops, row, row, bits);
    ring_rhs_evaluation_is_the_complete_scan(ops, rhs, point);
    assert forall|i: int| 0 <= i < rhs.dimension() && i != row implies #[trigger] term(i)
        == ops.zero by {
        lemma_boolean_basis(ops, row, i, bits);
        ring_laws::lemma_product_zero(ops, (ops.embed)(rhs.mantissa(i)));
    }
    lemma_ring_sum_single(ops, rhs.dimension(), term, row);
    ring_laws::lemma_product_one(ops, (ops.embed)(rhs.mantissa(row)));
    ring_laws::lemma_product_commutes(ops, (ops.embed)(rhs.mantissa(row)), ops.one);
}

/// At the Boolean points of a row and a column, a matrix evaluation is their
/// coefficient, and zero outside the matrix.
pub proof fn matrix_evaluation_selects_entries<S>(
    ops: ScalarOps<S>,
    matrix: MatrixModel,
    row: int,
    column: int,
)
    requires
        ring_laws::commutative_ring(ops),
        matrix.wf(),
        0 <= row < pow2(powers::ceil_log2(matrix.dimension())),
        0 <= column < pow2(powers::ceil_log2(matrix.dimension())),
    ensures
        ({
            let bits = powers::ceil_log2(matrix.dimension());
            evaluation::matrix_value(
                ops,
                matrix,
                boolean_point(ops, row, bits),
                boolean_point(ops, column, bits),
            ) == (if row < matrix.dimension() && column < matrix.dimension() {
                (ops.embed)(matrix.coefficient(row, column))
            } else {
                ops.zero
            })
        }),
{
    let bits = powers::ceil_log2(matrix.dimension());
    let dimension = matrix.dimension();
    let p = boolean_point(ops, row, bits);
    let q = boolean_point(ops, column, bits);
    powers::lemma_padded(dimension);
    lemma_boolean_basis(ops, row, row, bits);
    lemma_boolean_basis(ops, column, column, bits);
    ring_matrix_evaluation_is_the_complete_scan(ops, matrix, p, q);
    let outer = |i: int|
        ring_sum(ops, dimension, |j: int| entry_term(ops, matrix, p, q, i, j));
    assert forall|i: int| 0 <= i < dimension implies #[trigger] outer(i) == (if i == row && column
        < dimension {
        (ops.embed)(matrix.coefficient(row, column))
    } else {
        ops.zero
    }) by {
        let inner = |j: int| entry_term(ops, matrix, p, q, i, j);
        lemma_boolean_basis(ops, row, i, bits);
        assert forall|j: int| 0 <= j < dimension implies #[trigger] inner(j) == (if i == row && j
            == column {
            (ops.embed)(matrix.coefficient(i, j))
        } else {
            ops.zero
        }) by {
            lemma_boolean_basis(ops, column, j, bits);
            let coefficient = (ops.embed)(matrix.coefficient(i, j));
            let b = mle::basis(ops, q, j);
            ring_laws::lemma_product_one(ops, b);
            ring_laws::lemma_product_zero(ops, b);
            ring_laws::lemma_product_zero(ops, coefficient);
            ring_laws::lemma_product_one(ops, coefficient);
            ring_laws::lemma_product_commutes(ops, coefficient, ops.one);
        }
        lemma_ring_sum_single(ops, dimension, inner, column);
    }
    lemma_ring_sum_single(ops, dimension, outer, row);
}

} // verus!
