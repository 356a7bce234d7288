//! Finite sums of integers.

use vstd::prelude::*;

verus! {

/// `term(0) + ... + term(count - 1)`.
pub open spec fn sum_below(count: nat, term: spec_fn(int) -> int) -> int
    decreases count,
{
    if count == 0 {
        0
    } else {
        sum_below((count - 1) as nat, term) + term(count - 1)
    }
}

pub proof fn lemma_sum_equal(count: nat, left: spec_fn(int) -> int, right: spec_fn(int) -> int)
    requires
        forall|i: int| 0 <= i < count ==> #[trigger] left(i) == right(i),
    ensures
        sum_below(count, left) == sum_below(count, right),
    decreases count,
{
    if count > 0 {
        lemma_sum_equal((count - 1) as nat, left, right);
        assert(left(count - 1) == right(count - 1));
    }
}

pub proof fn lemma_sum_zero(count: nat, term: spec_fn(int) -> int)
    requires
        forall|i: int| 0 <= i < count ==> #[trigger] term(i) == 0,
    ensures
        sum_below(count, term) == 0,
    decreases count,
{
    if count > 0 {
        lemma_sum_zero((count - 1) as nat, term);
        assert(term(count - 1) == 0);
    }
}

/// A sum in which only the term at `at` can differ from zero.
pub proof fn lemma_sum_single(count: nat, term: spec_fn(int) -> int, at: int)
    requires
        0 <= at < count,
        forall|i: int| 0 <= i < count && i != at ==> #[trigger] term(i) == 0,
    ensures
        sum_below(count, term) == term(at),
    decreases count,
{
    if at == count - 1 {
        lemma_sum_zero((count - 1) as nat, term);
    } else {
        lemma_sum_single((count - 1) as nat, term, at);
        assert(term(count - 1) == 0);
    }
}

pub proof fn lemma_sum_add(count: nat, left: spec_fn(int) -> int, right: spec_fn(int) -> int)
    ensures
        sum_below(count, |i: int| left(i) + right(i)) == sum_below(count, left) + sum_below(
            count,
            right,
        ),
    decreases count,
{
    if count > 0 {
        lemma_sum_add((count - 1) as nat, left, right);
    }
}

pub proof fn lemma_sum_constant(count: nat, value: int)
    ensures
        sum_below(count, |i: int| value) == count * value,
    decreases count,
{
    if count > 0 {
        lemma_sum_constant((count - 1) as nat, value);
        assert(count * value == (count - 1) * value + value) by (nonlinear_arith);
    } else {
        assert(count * value == 0) by (nonlinear_arith)
            requires
                count == 0,
        ;
    }
}

pub proof fn lemma_sum_at_most(count: nat, term: spec_fn(int) -> int, bound: int)
    requires
        forall|i: int| 0 <= i < count ==> #[trigger] term(i) <= bound,
    ensures
        sum_below(count, term) <= count * bound,
    decreases count,
{
    if count > 0 {
        lemma_sum_at_most((count - 1) as nat, term, bound);
        assert(term(count - 1) <= bound);
        assert(count * bound == (count - 1) * bound + bound) by (nonlinear_arith);
    } else {
        assert(count * bound == 0) by (nonlinear_arith)
            requires
                count == 0,
        ;
    }
}

pub proof fn lemma_sum_monotonic(
    count: nat,
    left: spec_fn(int) -> int,
    right: spec_fn(int) -> int,
)
    requires
        forall|i: int| 0 <= i < count ==> #[trigger] left(i) <= right(i),
    ensures
        sum_below(count, left) <= sum_below(count, right),
    decreases count,
{
    if count > 0 {
        lemma_sum_monotonic((count - 1) as nat, left, right);
        assert(left(count - 1) <= right(count - 1));
    }
}

pub proof fn lemma_sum_split(first: nat, second: nat, term: spec_fn(int) -> int)
    ensures
        sum_below(first + second, term) == sum_below(first, term) + sum_below(
            second,
            |i: int| term(first + i),
        ),
    decreases second,
{
    if second > 0 {
        lemma_sum_split(first, (second - 1) as nat, term);
    }
}

/// The two orders of a double sum agree.
pub proof fn lemma_sum_swap(rows: nat, columns: nat, term: spec_fn(int, int) -> int)
    ensures
        sum_below(rows, |i: int| sum_below(columns, |j: int| term(i, j))) == sum_below(
            columns,
            |j: int| sum_below(rows, |i: int| term(i, j)),
        ),
    decreases rows,
{
    let by_rows = |i: int| sum_below(columns, |j: int| term(i, j));
    let by_columns = |j: int| sum_below(rows, |i: int| term(i, j));
    if rows == 0 {
        assert forall|j: int| 0 <= j < columns implies #[trigger] by_columns(j) == 0 by {}
        lemma_sum_zero(columns, by_columns);
    } else {
        let fewer = (rows - 1) as nat;
        lemma_sum_swap(fewer, columns, term);
        let fewer_by_columns = |j: int| sum_below(fewer, |i: int| term(i, j));
        let last = |j: int| term(rows - 1, j);
        let fewer_by_rows = |i: int| sum_below(columns, |j: int| term(i, j));
        lemma_sum_add(columns, fewer_by_columns, last);
        lemma_sum_equal(columns, by_columns, |j: int| fewer_by_columns(j) + last(j));
        assert(by_rows(rows - 1) == sum_below(columns, last)) by {
            lemma_sum_equal(columns, |j: int| term(rows - 1, j), last);
        }
        assert(sum_below(fewer, by_rows) == sum_below(fewer, fewer_by_rows));
    }
}

pub proof fn lemma_sum_negate(count: nat, term: spec_fn(int) -> int)
    ensures
        sum_below(count, |i: int| -term(i)) == -sum_below(count, term),
    decreases count,
{
    if count > 0 {
        lemma_sum_negate((count - 1) as nat, term);
    }
}

pub proof fn lemma_sum_scale(count: nat, factor: int, term: spec_fn(int) -> int)
    ensures
        sum_below(count, |i: int| factor * term(i)) == factor * sum_below(count, term),
    decreases count,
{
    if count > 0 {
        lemma_sum_scale((count - 1) as nat, factor, term);
        assert(factor * (sum_below((count - 1) as nat, term) + term(count - 1)) == factor
            * sum_below((count - 1) as nat, term) + factor * term(count - 1)) by (nonlinear_arith);
    } else {
        assert(factor * 0 == 0) by (nonlinear_arith);
    }
}

/// A sum that can differ from zero at one index only, and is zero if that index
/// lies outside the range.
pub proof fn lemma_sum_indicator(count: nat, at: int, value: int)
    ensures
        sum_below(
            count,
            |i: int|
                if i == at {
                    value
                } else {
                    0
                },
        ) == if 0 <= at < count {
            value
        } else {
            0
        },
{
    let term = |i: int|
        if i == at {
            value
        } else {
            0
        };
    if 0 <= at < count {
        lemma_sum_single(count, term, at);
    } else {
        lemma_sum_zero(count, term);
    }
}

/// How many indices lie in `low..high`.
pub proof fn lemma_sum_range(count: nat, low: int, high: int)
    requires
        0 <= low <= high <= count,
    ensures
        sum_below(
            count,
            |i: int|
                if low <= i < high {
                    1
                } else {
                    0
                },
        ) == high - low,
    decreases count,
{
    let term = |i: int|
        if low <= i < high {
            1
        } else {
            0int
        };
    if count > 0 {
        if high == count {
            if low == count {
                lemma_sum_zero(count, term);
            } else {
                lemma_sum_range((count - 1) as nat, low, high - 1);
                let fewer = |i: int|
                    if low <= i < high - 1 {
                        1
                    } else {
                        0int
                    };
                lemma_sum_equal((count - 1) as nat, term, fewer);
            }
        } else {
            lemma_sum_range((count - 1) as nat, low, high);
        }
    }
}

} // verus!
