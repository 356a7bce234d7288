//! Operation-by-operation evaluation of compiled matrices and right-hand sides
//! as multilinear extensions, from their periodic tables alone.

use vstd::arithmetic::power2::*;
use vstd::prelude::*;

use crate::compiled::{
    CompiledMatrixFamily, PeriodicNonsymmetricRowSparse, PeriodicSymmetricDiaLaplacian,
    PeriodicSymmetricTridiagonal,
};
use crate::generator::RhsModel;
use crate::matrix;
use crate::matrix::{EdgeModel, MatrixModel};
use crate::mle;
use crate::mle::{Arithmetic, MleInterpreter, ScalarOps, Work};
use crate::powers;
use crate::problem;

verus! {

/// How a range of anchors is cut into periodic patterns.
pub struct PatternSplit {
    /// Bits of the pattern part of an index.
    pub bits: nat,
    /// Whole periods below the limit.
    pub complete: int,
    /// Patterns of the last, incomplete period.
    pub partial: int,
}

/// Cuts the anchors below a limit by a table period within a domain.
pub open spec fn split_patterns(variables: nat, period: nat, limit: int) -> PatternSplit {
    let bits = if variables < powers::ceil_log2(period) {
        variables
    } else {
        powers::ceil_log2(period)
    };
    PatternSplit {
        bits,
        complete: limit / (pow2(bits) as int),
        partial: limit % (pow2(bits) as int),
    }
}

impl PatternSplit {
    /// Patterns that occur at all.
    pub open spec fn active(self) -> nat {
        if self.complete == 0 {
            self.partial as nat
        } else {
            pow2(self.bits)
        }
    }

    /// How often a pattern occurs.
    pub open spec fn count(self, pattern: int) -> int {
        self.complete + if pattern < self.partial {
            1int
        } else {
            0
        }
    }
}

/// The leading coordinates of a point, above the pattern bits.
pub open spec fn high_part<S>(point: Seq<S>, bits: nat) -> Seq<S> {
    point.take(point.len() - bits)
}

/// The trailing coordinates of a point: the pattern bits.
pub open spec fn low_part<S>(point: Seq<S>, bits: nat) -> Seq<S> {
    point.skip(point.len() - bits)
}

/// The four high factors of an edge pattern: equal, forward, reverse, end.
#[verifier::reject_recursive_types(S)]
pub struct EdgeFactors<S> {
    pub equal: S,
    pub forward: S,
    pub reverse: S,
    pub end: S,
}

/// Combines low and high factors into the quadratic form of an edge pattern:
/// the two off-diagonal products less the two diagonal ones.
pub open spec fn edge_form<S>(
    ops: ScalarOps<S>,
    row_current: S,
    column_current: S,
    row_next: S,
    column_next: S,
    high: EdgeFactors<S>,
) -> S {
    let forward = (ops.product)((ops.product)(row_current, column_next), high.forward);
    let reverse = (ops.product)((ops.product)(row_next, column_current), high.reverse);
    let start = (ops.product)((ops.product)(row_current, column_current), high.equal);
    let end = (ops.product)((ops.product)(row_next, column_next), high.end);
    (ops.difference)((ops.difference)((ops.sum)(forward, reverse), start), end)
}

/// The high factors of a tridiagonal edge pattern.
pub open spec fn tridiagonal_factors<S>(
    ops: ScalarOps<S>,
    row_high: Seq<S>,
    column_high: Seq<S>,
    count: int,
    wraps: bool,
) -> EdgeFactors<S> {
    let equal = mle::equal_sum(ops, row_high, column_high, count);
    if wraps {
        EdgeFactors {
            equal,
            forward: mle::shifted_sum(ops, row_high, column_high, count, 0, 1),
            reverse: mle::shifted_sum(ops, column_high, row_high, count, 0, 1),
            end: (ops.difference)(
                mle::equal_sum(ops, row_high, column_high, count + 1),
                (ops.product)(
                    mle::basis(ops, row_high, 0),
                    mle::basis(ops, column_high, 0),
                ),
            ),
        }
    } else {
        EdgeFactors { equal, forward: equal, reverse: equal, end: equal }
    }
}

/// The quadratic form of one tridiagonal edge pattern.
pub open spec fn tridiagonal_form<S>(
    ops: ScalarOps<S>,
    split: PatternSplit,
    row: Seq<S>,
    column: Seq<S>,
    pattern: int,
) -> S {
    let period = pow2(split.bits) as int;
    let wraps = pattern + 1 >= period;
    let next = (pattern + 1) % period;
    edge_form(
        ops,
        mle::basis(ops, low_part(row, split.bits), pattern),
        mle::basis(ops, low_part(column, split.bits), pattern),
        mle::basis(ops, low_part(row, split.bits), next),
        mle::basis(ops, low_part(column, split.bits), next),
        tridiagonal_factors(
            ops,
            high_part(row, split.bits),
            high_part(column, split.bits),
            split.count(pattern),
            wraps,
        ),
    )
}

/// The margin part and the first `count` edge patterns of a tridiagonal
/// evaluation.
pub open spec fn tridiagonal_terms<S>(
    ops: ScalarOps<S>,
    dimension: nat,
    margin: nat,
    table: Seq<i64>,
    row: Seq<S>,
    column: Seq<S>,
    count: nat,
) -> S
    decreases count,
{
    if count == 0 {
        (ops.product)(
            (ops.embed)(margin as int),
            mle::equal_sum(ops, row, column, dimension as int),
        )
    } else {
        let split = split_patterns(row.len(), table.len(), dimension - 1);
        (ops.sum)(
            tridiagonal_terms(ops, dimension, margin, table, row, column, (count - 1) as nat),
            (ops.product)(
                (ops.embed)(table[count - 1] as int),
                tridiagonal_form(ops, split, row, column, count - 1),
            ),
        )
    }
}

/// Work of the high factors of a tridiagonal edge pattern.
pub open spec fn tridiagonal_factors_work(high: nat, count: int, wraps: bool) -> Work {
    let equal = mle::equal_sum_work(count, high);
    if wraps {
        equal.plus(mle::shifted_sum_work(high)).plus(mle::shifted_sum_work(high)).plus(
            mle::equal_sum_work(count + 1, high),
        ).plus(mle::basis_work(0, high)).plus(mle::basis_work(0, high)).plus(
            mle::operations(0, 1, 1),
        )
    } else {
        equal
    }
}

/// Work of the low factors of an edge pattern and of combining all factors.
pub open spec fn edge_form_work(bits: nat, pattern: int, next: int) -> Work {
    mle::basis_work(pattern, bits).plus(mle::basis_work(pattern, bits)).plus(
        mle::basis_work(next, bits),
    ).plus(mle::basis_work(next, bits)).plus(mle::operations(1, 2, 8))
}

/// Work of one pattern's form.
pub open spec fn tridiagonal_form_work(variables: nat, split: PatternSplit, pattern: int) -> Work {
    let period = pow2(split.bits) as int;
    tridiagonal_factors_work(
        (variables - split.bits) as nat,
        split.count(pattern),
        pattern + 1 >= period,
    ).plus(edge_form_work(split.bits, pattern, (pattern + 1) % period))
}

/// Work of adding one weighted form to the result.
pub open spec fn term_work() -> Work {
    Work { terms: 1, additions: 1, subtractions: 0, multiplications: 1 }
}

/// Work of the margin part and the first `count` patterns.
pub open spec fn tridiagonal_work(
    dimension: nat,
    period: nat,
    variables: nat,
    count: nat,
) -> Work
    decreases count,
{
    if count == 0 {
        mle::equal_sum_work(dimension as int, variables).plus(mle::operations(0, 0, 1))
    } else {
        tridiagonal_work(dimension, period, variables, (count - 1) as nat).plus(
            tridiagonal_form_work(
                variables,
                split_patterns(variables, period, dimension - 1),
                count - 1,
            ),
        ).plus(term_work())
    }
}

/// What cutting a range of anchors into patterns guarantees.
pub proof fn lemma_split(variables: nat, period: nat, limit: int)
    requires
        matrix::is_period(period),
        0 <= limit <= pow2(variables),
    ensures
        ({
            let split = split_patterns(variables, period, limit);
            let size = pow2(split.bits) as int;
            &&& split.bits <= variables
            &&& split.bits <= 16
            &&& 0 < size <= period
            &&& size <= 65536
            &&& pow2(variables) == pow2((variables - split.bits) as nat) * pow2(split.bits)
            &&& 0 <= split.complete
            &&& 0 <= split.partial < size
            &&& limit == split.complete * size + split.partial
            &&& split.active() <= size
            &&& split.complete <= pow2((variables - split.bits) as nat)
        }),
{
    let split = split_patterns(variables, period, limit);
    let table_bits = choose|bits: nat|
        bits <= problem::MAX_PERIOD_BITS && period == #[trigger] pow2(bits);
    if table_bits > 0 {
        lemma_pow2_strictly_increases((table_bits - 1) as nat, table_bits);
    }
    powers::lemma_padded_unique(period, table_bits);
    lemma_pow2_pos(split.bits);
    if split.bits < table_bits {
        lemma_pow2_strictly_increases(split.bits, table_bits);
    }
    let size = pow2(split.bits) as int;
    let high = pow2((variables - split.bits) as nat) as int;
    lemma_pow2_adds((variables - split.bits) as nat, split.bits);
    assert(limit == split.complete * size + split.partial && 0 <= split.partial < size)
        by (nonlinear_arith)
        requires
            split.complete == limit / size,
            split.partial == limit % size,
            0 < size,
    ;
    assert(0 <= split.complete <= high) by (nonlinear_arith)
        requires
            limit == split.complete * size + split.partial,
            0 <= split.partial < size,
            0 <= limit <= high * size,
    ;
}

/// What holds of each pattern that occurs.
pub proof fn lemma_pattern_count(variables: nat, period: nat, limit: int, pattern: int)
    requires
        matrix::is_period(period),
        0 <= limit <= pow2(variables),
        0 <= pattern < pow2(split_patterns(variables, period, limit).bits),
    ensures
        ({
            let split = split_patterns(variables, period, limit);
            let size = pow2(split.bits) as int;
            let count = split.count(pattern);
            let high = pow2((variables - split.bits) as nat) as int;
            &&& 0 <= count <= high
            &&& pattern < split.active() ==> 1 <= count
            &&& pattern >= split.active() ==> count == 0
            &&& 0 < count ==> (count - 1) * size + pattern < limit
            &&& limit <= count * size + pattern
        }),
{
    lemma_split(variables, period, limit);
    let split = split_patterns(variables, period, limit);
    let size = pow2(split.bits) as int;
    let count = split.count(pattern);
    let high = pow2((variables - split.bits) as nat) as int;
    assert(limit <= count * size + pattern) by (nonlinear_arith)
        requires
            limit == split.complete * size + split.partial,
            split.partial < size,
            count == split.complete + (if pattern < split.partial {
                1int
            } else {
                0
            }),
            0 <= pattern,
    ;
    if count > 0 {
        assert((count - 1) * size + pattern < limit) by (nonlinear_arith)
            requires
                limit == split.complete * size + split.partial,
                0 <= split.partial,
                count == split.complete + (if pattern < split.partial {
                    1int
                } else {
                    0
                }),
                0 <= pattern < size,
        ;
        assert(count <= high) by (nonlinear_arith)
            requires
                (count - 1) * size + pattern < high * size,
                0 <= pattern,
                0 < size,
        ;
    }
}

/// Executable pattern cut.
#[derive(Clone, Copy)]
struct Split {
    bits: usize,
    period: usize,
    complete: usize,
    partial: usize,
}

impl Split {
    spec fn model(self) -> PatternSplit {
        PatternSplit {
            bits: self.bits as nat,
            complete: self.complete as int,
            partial: self.partial as int,
        }
    }

    fn new(variables: usize, period: usize, limit: usize) -> (split: Split)
        requires
            variables <= mle::MAX_VARIABLES,
            matrix::is_period(period as nat),
            limit <= pow2(variables as nat),
        ensures
            split.model() == split_patterns(variables as nat, period as nat, limit as int),
            split.period == pow2(split.bits as nat),
            split.bits <= variables,
            split.bits <= 16,
            split.period <= 65536,
    {
        proof {
            lemma_split(variables as nat, period as nat, limit as int);
        }
        let table_bits: usize = powers::padded_exponent(period) as usize;
        let bits: usize = if variables < table_bits {
            variables
        } else {
            table_bits
        };
        let size: usize = powers::power_of_two(bits as u32);
        Split { bits, period: size, complete: limit / size, partial: limit % size }
    }

    fn count(self, pattern: usize) -> (count: usize)
        requires
            self.complete < usize::MAX,
        ensures
            count == self.model().count(pattern as int),
    {
        if pattern < self.partial {
            self.complete + 1
        } else {
            self.complete
        }
    }

    fn active(self) -> (active: usize)
        requires
            self.period == pow2(self.bits as nat),
        ensures
            active == self.model().active(),
    {
        if self.complete == 0 {
            self.partial
        } else {
            self.period
        }
    }
}

/// A point cut into the coordinates above and of the pattern bits.
struct CutPoint<'a, S> {
    high: &'a [S],
    low: &'a [S],
}

fn cut_point<S>(point: &[S], bits: usize) -> (cut: CutPoint<'_, S>)
    requires
        bits <= point@.len(),
    ensures
        cut.high@ == high_part(point@, bits as nat),
        cut.low@ == low_part(point@, bits as nat),
        cut.high@.len() == point@.len() - bits,
        cut.low@.len() == bits,
{
    let at: usize = point.len() - bits;
    let high = vstd::slice::slice_subrange(point, 0, at);
    let low = vstd::slice::slice_subrange(point, at, point.len());
    assert(high@ =~= high_part(point@, bits as nat));
    assert(low@ =~= low_part(point@, bits as nat));
    CutPoint { high, low }
}

/// Combines low and high factors into the quadratic form of an edge pattern.
fn combine_edge<I: MleInterpreter>(
    arithmetic: &mut Arithmetic<'_, I>,
    row_current: I::Scalar,
    column_current: I::Scalar,
    row_next: I::Scalar,
    column_next: I::Scalar,
    high_equal: I::Scalar,
    forward_high: I::Scalar,
    reverse_high: I::Scalar,
    end_diagonal_high: I::Scalar,
) -> (form: I::Scalar)
    requires
        old(arithmetic).work@.below(mle::WORK_LIMIT as int),
    ensures
        final(arithmetic).ops() == old(arithmetic).ops(),
        final(arithmetic).work@ == old(arithmetic).work@.plus(mle::operations(1, 2, 8)),
        form == edge_form(
            old(arithmetic).ops(),
            row_current,
            column_current,
            row_next,
            column_next,
            (EdgeFactors {
                equal: high_equal,
                forward: forward_high,
                reverse: reverse_high,
                end: end_diagonal_high,
            }),
        ),
{
    let forward_low = arithmetic.times(row_current, column_next);
    let forward = arithmetic.times(forward_low, forward_high);
    let reverse_low = arithmetic.times(row_next, column_current);
    let reverse = arithmetic.times(reverse_low, reverse_high);
    let start_low = arithmetic.times(row_current, column_current);
    let start_diagonal = arithmetic.times(start_low, high_equal);
    let end_low = arithmetic.times(row_next, column_next);
    let end_diagonal = arithmetic.times(end_low, end_diagonal_high);
    let off_diagonal_sum = arithmetic.plus(forward, reverse);
    let without_start = arithmetic.minus(off_diagonal_sum, start_diagonal);
    arithmetic.minus(without_start, end_diagonal)
}

proof fn lemma_tridiagonal_form_work(variables: nat, split: PatternSplit, pattern: int)
    requires
        variables <= mle::MAX_VARIABLES,
        split.bits <= variables,
    ensures
        tridiagonal_form_work(variables, split, pattern).below(1900),
        tridiagonal_form_work(variables, split, pattern).terms == 0,
{
    let next = (pattern + 1) % (pow2(split.bits) as int);
    mle::lemma_zero_bits(pattern, split.bits);
    mle::lemma_zero_bits(next, split.bits);
    mle::lemma_zero_bits(0, (variables - split.bits) as nat);
}

proof fn lemma_tridiagonal_work(dimension: nat, period: nat, variables: nat, count: nat)
    requires
        variables <= mle::MAX_VARIABLES,
        matrix::is_period(period),
        1 <= dimension <= pow2(variables),
    ensures
        tridiagonal_work(dimension, period, variables, count).below(1000 + 2000 * count as int),
        tridiagonal_work(dimension, period, variables, count).terms == count,
    decreases count,
{
    lemma_split(variables, period, dimension - 1);
    if count > 0 {
        lemma_tridiagonal_work(dimension, period, variables, (count - 1) as nat);
        lemma_tridiagonal_form_work(
            variables,
            split_patterns(variables, period, dimension - 1),
            count - 1,
        );
    }
}

/// The high factors of a tridiagonal edge pattern.
fn tridiagonal_high_factors<I: MleInterpreter>(
    arithmetic: &mut Arithmetic<'_, I>,
    row_high: &[I::Scalar],
    column_high: &[I::Scalar],
    count: usize,
    wraps: bool,
) -> (factors: (I::Scalar, I::Scalar, I::Scalar, I::Scalar))
    requires
        old(arithmetic).work@.below(mle::WORK_LIMIT - 10000),
        row_high@.len() == column_high@.len(),
        row_high@.len() <= mle::MAX_VARIABLES,
        count <= pow2(row_high@.len()),
        wraps ==> count < pow2(row_high@.len()),
    ensures
        final(arithmetic).ops() == old(arithmetic).ops(),
        final(arithmetic).work@ == old(arithmetic).work@.plus(
            tridiagonal_factors_work(row_high@.len(), count as int, wraps),
        ),
        (EdgeFactors {
            equal: factors.0,
            forward: factors.1,
            reverse: factors.2,
            end: factors.3,
        }) == tridiagonal_factors(
            old(arithmetic).ops(),
            row_high@,
            column_high@,
            count as int,
            wraps,
        ),
{
    proof {
        lemma2_to64();
        lemma_pow2_pos(row_high@.len());
        if row_high@.len() < 30 {
            lemma_pow2_strictly_increases(row_high@.len(), 30);
        }
        mle::lemma_zero_bits(0, row_high@.len());
    }
    let equal = mle::bounded_equal_indices(arithmetic, row_high, column_high, count);
    if !wraps {
        return (equal, equal, equal, equal);
    }
    let forward = mle::bounded_shifted_indices(arithmetic, row_high, column_high, count, 0, 1);
    let reverse = mle::bounded_shifted_indices(arithmetic, column_high, row_high, count, 0, 1);
    let shifted_prefix = mle::bounded_equal_indices(arithmetic, row_high, column_high, count + 1);
    let row_zero = mle::eq_index(arithmetic, row_high, 0);
    let column_zero = mle::eq_index(arithmetic, column_high, 0);
    let zero_pair = arithmetic.times(row_zero, column_zero);
    let end_diagonal = arithmetic.minus(shifted_prefix, zero_pair);
    (equal, forward, reverse, end_diagonal)
}

/// Evaluates the low factors of an edge pattern and combines all factors.
fn finish_edge<I: MleInterpreter>(
    arithmetic: &mut Arithmetic<'_, I>,
    row_low: &[I::Scalar],
    column_low: &[I::Scalar],
    pattern: usize,
    next: usize,
    factors: (I::Scalar, I::Scalar, I::Scalar, I::Scalar),
) -> (form: I::Scalar)
    requires
        old(arithmetic).work@.below(mle::WORK_LIMIT - 1000),
        row_low@.len() == column_low@.len(),
        row_low@.len() <= mle::MAX_VARIABLES,
        pattern < pow2(row_low@.len()),
        next < pow2(row_low@.len()),
    ensures
        final(arithmetic).ops() == old(arithmetic).ops(),
        final(arithmetic).work@ == old(arithmetic).work@.plus(
            edge_form_work(row_low@.len(), pattern as int, next as int),
        ),
        form == edge_form(
            old(arithmetic).ops(),
            mle::basis(old(arithmetic).ops(), row_low@, pattern as int),
            mle::basis(old(arithmetic).ops(), column_low@, pattern as int),
            mle::basis(old(arithmetic).ops(), row_low@, next as int),
            mle::basis(old(arithmetic).ops(), column_low@, next as int),
            (EdgeFactors {
                equal: factors.0,
                forward: factors.1,
                reverse: factors.2,
                end: factors.3,
            }),
        ),
{
    proof {
        mle::lemma_zero_bits(pattern as int, row_low@.len());
        mle::lemma_zero_bits(next as int, row_low@.len());
    }
    let row_current = mle::eq_index(arithmetic, row_low, pattern);
    let column_current = mle::eq_index(arithmetic, column_low, pattern);
    let row_next = mle::eq_index(arithmetic, row_low, next);
    let column_next = mle::eq_index(arithmetic, column_low, next);
    combine_edge(
        arithmetic,
        row_current,
        column_current,
        row_next,
        column_next,
        factors.0,
        factors.1,
        factors.2,
        factors.3,
    )
}

/// What a tridiagonal pattern evaluation relies on.
proof fn lemma_tridiagonal_pattern(variables: nat, period: nat, limit: int, pattern: int)
    requires
        variables <= mle::MAX_VARIABLES,
        matrix::is_period(period),
        0 <= limit < pow2(variables),
        0 <= pattern < split_patterns(variables, period, limit).active(),
    ensures
        ({
            let split = split_patterns(variables, period, limit);
            let size = pow2(split.bits) as int;
            let high = (variables - split.bits) as nat;
            let count = split.count(pattern);
            &&& split.bits <= variables
            &&& pattern < size
            &&& 0 <= (pattern + 1) % size < size
            &&& split.complete <= count <= pow2(high) <= 0x4000_0000
            &&& pattern + 1 >= size ==> count < pow2(high)
            &&& tridiagonal_factors_work(high, count, pattern + 1 >= size).below(1900)
        }),
{
    lemma_split(variables, period, limit);
    lemma_pattern_count(variables, period, limit, pattern);
    lemma2_to64();
    let split = split_patterns(variables, period, limit);
    let high = (variables - split.bits) as nat;
    if high < 30 {
        lemma_pow2_strictly_increases(high, 30);
    }
    mle::lemma_zero_bits(0, high);
    // The last anchor of the last pattern has a successor in the domain.
    let size = pow2(split.bits) as int;
    let high_size = pow2(high) as int;
    let count = split.count(pattern);
    if pattern + 1 >= size {
        assert(count < high_size) by (nonlinear_arith)
            requires
                (count - 1) * size + pattern < limit,
                limit < high_size * size,
                pattern == size - 1,
                0 < size,
        ;
    }
}

/// The quadratic form of one tridiagonal edge pattern.
fn evaluate_tridiagonal_pattern<I: MleInterpreter>(
    arithmetic: &mut Arithmetic<'_, I>,
    row: &CutPoint<'_, I::Scalar>,
    column: &CutPoint<'_, I::Scalar>,
    split: Split,
    pattern: usize,
    Ghost(row_point): Ghost<Seq<I::Scalar>>,
    Ghost(column_point): Ghost<Seq<I::Scalar>>,
    Ghost(period): Ghost<nat>,
    Ghost(limit): Ghost<int>,
) -> (form: I::Scalar)
    requires
        old(arithmetic).work@.below(mle::WORK_LIMIT - 100000),
        row_point.len() == column_point.len(),
        row_point.len() <= mle::MAX_VARIABLES,
        matrix::is_period(period),
        0 <= limit < pow2(row_point.len()),
        split.model() == split_patterns(row_point.len(), period, limit),
        split.period == pow2(split.bits as nat),
        row.high@ == high_part(row_point, split.bits as nat),
        row.low@ == low_part(row_point, split.bits as nat),
        column.high@ == high_part(column_point, split.bits as nat),
        column.low@ == low_part(column_point, split.bits as nat),
        pattern < split.model().active(),
    ensures
        final(arithmetic).ops() == old(arithmetic).ops(),
        final(arithmetic).work@ == old(arithmetic).work@.plus(
            tridiagonal_form_work(row_point.len(), split.model(), pattern as int),
        ),
        form == tridiagonal_form(
            old(arithmetic).ops(),
            split.model(),
            row_point,
            column_point,
            pattern as int,
        ),
{
    proof {
        lemma_tridiagonal_pattern(row_point.len(), period, limit, pattern as int);
    }
    let count: usize = split.count(pattern);
    let wraps = pattern + 1 >= split.period;
    let factors = tridiagonal_high_factors(arithmetic, row.high, column.high, count, wraps);
    let next: usize = (pattern + 1) % split.period;
    finish_edge(arithmetic, row.low, column.low, pattern, next, factors)
}

fn evaluate_tridiagonal<I: MleInterpreter>(
    arithmetic: &mut Arithmetic<'_, I>,
    matrix: &PeriodicSymmetricTridiagonal,
    row_point: &[I::Scalar],
    column_point: &[I::Scalar],
) -> (value: I::Scalar)
    requires
        matrix.model().wf(),
        old(arithmetic).work@ == mle::no_work(),
        row_point@.len() == powers::ceil_log2(matrix.dimension as nat),
        column_point@.len() == row_point@.len(),
    ensures
        final(arithmetic).ops() == old(arithmetic).ops(),
        final(arithmetic).work@ == matrix_work(matrix.model()),
        value == matrix_value(old(arithmetic).ops(), matrix.model(), row_point@, column_point@),
{
    let ghost ops = arithmetic.ops();
    let ghost variables = row_point@.len();
    let ghost dimension = matrix.dimension as nat;
    let ghost table = matrix.off_diagonal_mantissas@;
    proof {
        assert(matrix.model().edges()[0].table == table);
        lemma2_to64();
        powers::lemma_padded(dimension);
        powers::lemma_ceil_log2_bound(dimension, 30);
        lemma_split(variables, table.len(), dimension - 1);
    }
    let active_diagonal = mle::bounded_equal_indices(
        arithmetic,
        row_point,
        column_point,
        matrix.dimension,
    );
    let margin = arithmetic.embed_i64(matrix.margin_mantissa as i64);
    let mut result = arithmetic.times(margin, active_diagonal);
    let split = Split::new(
        row_point.len(),
        matrix.off_diagonal_mantissas.len(),
        matrix.dimension - 1,
    );
    let row = cut_point(row_point, split.bits);
    let column = cut_point(column_point, split.bits);
    let active: usize = split.active();
    let mut pattern: usize = 0;
    while pattern < active
        invariant
            matrix.model().wf(),
            matrix.model().edges()[0].table == table,
            table == matrix.off_diagonal_mantissas@,
            dimension == matrix.dimension,
            variables == row_point@.len(),
            variables == column_point@.len(),
            variables <= mle::MAX_VARIABLES,
            matrix::is_period(table.len()),
            1 <= dimension <= pow2(variables),
            split.model() == split_patterns(variables, table.len(), dimension - 1),
            split.period == pow2(split.bits as nat),
            split.period <= table.len(),
            row.high@ == high_part(row_point@, split.bits as nat),
            row.low@ == low_part(row_point@, split.bits as nat),
            column.high@ == high_part(column_point@, split.bits as nat),
            column.low@ == low_part(column_point@, split.bits as nat),
            active == split.model().active(),
            active <= split.period <= 65536,
            pattern <= active,
            arithmetic.ops() == ops,
            ops == old(arithmetic).ops(),
            arithmetic.work@ == tridiagonal_work(dimension, table.len(), variables, pattern as nat),
            result == tridiagonal_terms(
                ops,
                dimension,
                matrix.margin_mantissa as nat,
                table,
                row_point@,
                column_point@,
                pattern as nat,
            ),
        decreases active - pattern,
    {
        proof {
            lemma_tridiagonal_work(dimension, table.len(), variables, pattern as nat);
            lemma_split(variables, table.len(), dimension - 1);
            lemma_tridiagonal_form_work(variables, split.model(), pattern as int);
        }
        let form = evaluate_tridiagonal_pattern(
            arithmetic,
            &row,
            &column,
            split,
            pattern,
            Ghost(row_point@),
            Ghost(column_point@),
            Ghost(table.len()),
            Ghost(dimension - 1),
        );
        let edge_mantissa = arithmetic.embed_i64(matrix.off_diagonal_mantissas[pattern]);
        let contribution = arithmetic.times(edge_mantissa, form);
        result = arithmetic.plus(result, contribution);
        arithmetic.work.periodic_terms = arithmetic.work.periodic_terms + 1;
        pattern = pattern + 1;
    }
    result
}

/// Where an anchor pattern lands when it is displaced by an offset: the low
/// pattern, and the shift and carry of the high part.
pub struct Displacement {
    pub next: int,
    pub shift: int,
    pub carry: int,
}

pub open spec fn displace(bits: nat, pattern: int, offset: int) -> Displacement {
    let size = pow2(bits) as int;
    let moved = pattern + offset % size;
    Displacement { next: moved % size, shift: offset / size, carry: moved / size }
}

/// The sum over paired high indices: equal ones, or displaced ones.
pub open spec fn displaced_high<S>(
    ops: ScalarOps<S>,
    left: Seq<S>,
    right: Seq<S>,
    count: int,
    shift: int,
    carry: int,
) -> S {
    if shift + carry == 0 {
        mle::equal_sum(ops, left, right, count)
    } else {
        mle::shifted_sum(ops, left, right, count, shift, carry)
    }
}

pub open spec fn displaced_high_work(high: nat, count: int, shift: int, carry: int) -> Work {
    if shift + carry == 0 {
        mle::equal_sum_work(count, high)
    } else {
        mle::shifted_sum_work(high)
    }
}

/// The high factors of an edge pattern with a displacement.
pub open spec fn edge_factors<S>(
    ops: ScalarOps<S>,
    row_high: Seq<S>,
    column_high: Seq<S>,
    count: int,
    shift: int,
    carry: int,
) -> EdgeFactors<S> {
    let equal = mle::equal_sum(ops, row_high, column_high, count);
    if shift + carry == 0 {
        EdgeFactors { equal, forward: equal, reverse: equal, end: equal }
    } else {
        EdgeFactors {
            equal,
            forward: mle::shifted_sum(ops, row_high, column_high, count, shift, carry),
            reverse: mle::shifted_sum(ops, column_high, row_high, count, shift, carry),
            end: (ops.difference)(
                mle::equal_sum(ops, row_high, column_high, count + shift + carry),
                mle::equal_sum(ops, row_high, column_high, shift + carry),
            ),
        }
    }
}

pub open spec fn edge_factors_work(high: nat, count: int, shift: int, carry: int) -> Work {
    let equal = mle::equal_sum_work(count, high);
    if shift + carry == 0 {
        equal
    } else {
        equal.plus(mle::shifted_sum_work(high)).plus(mle::shifted_sum_work(high)).plus(
            mle::equal_sum_work(count + shift + carry, high),
        ).plus(mle::equal_sum_work(shift + carry, high)).plus(mle::operations(0, 1, 0))
    }
}

/// The quadratic form of one edge pattern at an offset.
pub open spec fn edge_pattern_form<S>(
    ops: ScalarOps<S>,
    split: PatternSplit,
    offset: int,
    row: Seq<S>,
    column: Seq<S>,
    pattern: int,
) -> S {
    let moved = displace(split.bits, pattern, offset);
    edge_form(
        ops,
        mle::basis(ops, low_part(row, split.bits), pattern),
        mle::basis(ops, low_part(column, split.bits), pattern),
        mle::basis(ops, low_part(row, split.bits), moved.next),
        mle::basis(ops, low_part(column, split.bits), moved.next),
        edge_factors(
            ops,
            high_part(row, split.bits),
            high_part(column, split.bits),
            split.count(pattern),
            moved.shift,
            moved.carry,
        ),
    )
}

pub open spec fn edge_pattern_work(
    variables: nat,
    split: PatternSplit,
    offset: int,
    pattern: int,
) -> Work {
    let moved = displace(split.bits, pattern, offset);
    edge_factors_work(
        (variables - split.bits) as nat,
        split.count(pattern),
        moved.shift,
        moved.carry,
    ).plus(edge_form_work(split.bits, pattern, moved.next))
}

/// Adds the first `count` patterns of one edge diagonal to a value.
pub open spec fn edge_terms<S>(
    ops: ScalarOps<S>,
    dimension: nat,
    edge: EdgeModel,
    row: Seq<S>,
    column: Seq<S>,
    start: S,
    count: nat,
) -> S
    decreases count,
{
    if count == 0 {
        start
    } else {
        let split = split_patterns(row.len(), edge.table.len(), dimension - edge.offset);
        (ops.sum)(
            edge_terms(ops, dimension, edge, row, column, start, (count - 1) as nat),
            (ops.product)(
                (ops.embed)(edge.table[count - 1] as int),
                edge_pattern_form(
                    ops,
                    split,
                    edge.offset as int,
                    row,
                    column,
                    count - 1,
                ),
            ),
        )
    }
}

pub open spec fn edge_terms_work(
    dimension: nat,
    edge: EdgeModel,
    variables: nat,
    start: Work,
    count: nat,
) -> Work
    decreases count,
{
    if count == 0 {
        start
    } else {
        let split = split_patterns(variables, edge.table.len(), dimension - edge.offset);
        edge_terms_work(dimension, edge, variables, start, (count - 1) as nat).plus(
            edge_pattern_work(variables, split, edge.offset as int, count - 1),
        ).plus(term_work())
    }
}

/// The shift part and the first `count` edge diagonals of a shifted Laplacian.
pub open spec fn laplacian_terms<S>(
    ops: ScalarOps<S>,
    dimension: nat,
    shift: nat,
    edges: Seq<EdgeModel>,
    row: Seq<S>,
    column: Seq<S>,
    count: nat,
) -> S
    decreases count,
{
    if count == 0 {
        (ops.product)(
            (ops.embed)(shift as int),
            mle::equal_sum(ops, row, column, dimension as int),
        )
    } else {
        let edge = edges[count - 1];
        edge_terms(
            ops,
            dimension,
            edge,
            row,
            column,
            laplacian_terms(ops, dimension, shift, edges, row, column, (count - 1) as nat),
            split_patterns(row.len(), edge.table.len(), dimension - edge.offset).active(),
        )
    }
}

pub open spec fn laplacian_work(
    dimension: nat,
    edges: Seq<EdgeModel>,
    variables: nat,
    count: nat,
) -> Work
    decreases count,
{
    if count == 0 {
        mle::equal_sum_work(dimension as int, variables).plus(mle::operations(0, 0, 1))
    } else {
        let edge = edges[count - 1];
        edge_terms_work(
            dimension,
            edge,
            variables,
            laplacian_work(dimension, edges, variables, (count - 1) as nat),
            split_patterns(variables, edge.table.len(), dimension - edge.offset).active(),
        )
    }
}

/// The bilinear form of one displaced row pattern: the anchors are the smaller
/// of the two indices.
pub open spec fn entry_form<S>(
    ops: ScalarOps<S>,
    split: PatternSplit,
    offset: int,
    anchors: Seq<S>,
    displaced: Seq<S>,
    pattern: int,
) -> S {
    let moved = displace(split.bits, pattern, offset);
    (ops.product)(
        (ops.product)(
            mle::basis(ops, low_part(anchors, split.bits), pattern),
            mle::basis(ops, low_part(displaced, split.bits), moved.next),
        ),
        displaced_high(
            ops,
            high_part(anchors, split.bits),
            high_part(displaced, split.bits),
            split.count(pattern),
            moved.shift,
            moved.carry,
        ),
    )
}

pub open spec fn entry_form_work(
    variables: nat,
    split: PatternSplit,
    offset: int,
    pattern: int,
) -> Work {
    let moved = displace(split.bits, pattern, offset);
    displaced_high_work(
        (variables - split.bits) as nat,
        split.count(pattern),
        moved.shift,
        moved.carry,
    ).plus(mle::basis_work(pattern, split.bits)).plus(mle::basis_work(moved.next, split.bits)).plus(
        mle::operations(0, 0, 2),
    )
}

/// The anchor pattern of a row pattern's entry: the row itself for a
/// nonnegative displacement, its column otherwise.
pub open spec fn anchor_pattern(period: int, pattern: int, offset: int) -> int {
    if offset >= 0 {
        pattern
    } else {
        (pattern + offset) % period
    }
}

/// Adds one weighted entry of a row pattern to a value.
pub open spec fn entry_term<S>(
    ops: ScalarOps<S>,
    dimension: nat,
    period: nat,
    pattern: int,
    offset: int,
    mantissa: int,
    row: Seq<S>,
    column: Seq<S>,
    start: S,
) -> S {
    let distance = problem::magnitude(offset) as int;
    let split = split_patterns(row.len(), period, dimension - distance);
    let anchor = anchor_pattern(period as int, pattern, offset);
    if split.count(anchor) == 0 {
        start
    } else {
        (ops.sum)(
            start,
            (ops.product)(
                (ops.embed)(mantissa),
                if offset >= 0 {
                    entry_form(ops, split, distance, row, column, anchor)
                } else {
                    entry_form(ops, split, distance, column, row, anchor)
                },
            ),
        )
    }
}

pub open spec fn entry_term_work(
    dimension: nat,
    period: nat,
    pattern: int,
    offset: int,
    variables: nat,
    start: Work,
) -> Work {
    let distance = problem::magnitude(offset) as int;
    let split = split_patterns(variables, period, dimension - distance);
    let anchor = anchor_pattern(period as int, pattern, offset);
    if split.count(anchor) == 0 {
        start.plus(Work { terms: 1, additions: 0, subtractions: 0, multiplications: 0 })
    } else {
        start.plus(entry_form_work(variables, split, distance, anchor)).plus(term_work())
    }
}

/// Adds the first `count` off-diagonal entries of a row pattern to a value.
pub open spec fn row_entries<S>(
    ops: ScalarOps<S>,
    dimension: nat,
    period: nat,
    pattern: int,
    offsets: Seq<i32>,
    values: Seq<i64>,
    first: int,
    row: Seq<S>,
    column: Seq<S>,
    start: S,
    count: nat,
) -> S
    decreases count,
{
    if count == 0 {
        start
    } else {
        entry_term(
            ops,
            dimension,
            period,
            pattern,
            offsets[first + count - 1] as int,
            values[first + count - 1] as int,
            row,
            column,
            row_entries(
                ops,
                dimension,
                period,
                pattern,
                offsets,
                values,
                first,
                row,
                column,
                start,
                (count - 1) as nat,
            ),
        )
    }
}

pub open spec fn row_entries_work(
    dimension: nat,
    period: nat,
    pattern: int,
    offsets: Seq<i32>,
    first: int,
    variables: nat,
    start: Work,
    count: nat,
) -> Work
    decreases count,
{
    if count == 0 {
        start
    } else {
        entry_term_work(
            dimension,
            period,
            pattern,
            offsets[first + count - 1] as int,
            variables,
            row_entries_work(
                dimension,
                period,
                pattern,
                offsets,
                first,
                variables,
                start,
                (count - 1) as nat,
            ),
        )
    }
}

/// The first `count` row patterns of a row-sparse evaluation.
pub open spec fn row_sparse_terms<S>(
    ops: ScalarOps<S>,
    dimension: nat,
    width: nat,
    offsets: Seq<i32>,
    values: Seq<i64>,
    diagonal: Seq<i64>,
    row: Seq<S>,
    column: Seq<S>,
    count: nat,
) -> S
    decreases count,
{
    if count == 0 {
        ops.zero
    } else {
        let pattern = count - 1;
        let before = row_sparse_terms(
            ops,
            dimension,
            width,
            offsets,
            values,
            diagonal,
            row,
            column,
            pattern as nat,
        );
        row_entries(
            ops,
            dimension,
            diagonal.len(),
            pattern,
            offsets,
            values,
            pattern * width,
            row,
            column,
            entry_term(
                ops,
                dimension,
                diagonal.len(),
                pattern,
                0,
                diagonal[pattern] as int,
                row,
                column,
                before,
            ),
            width,
        )
    }
}

pub open spec fn row_sparse_work(
    dimension: nat,
    width: nat,
    offsets: Seq<i32>,
    period: nat,
    variables: nat,
    count: nat,
) -> Work
    decreases count,
{
    if count == 0 {
        mle::no_work()
    } else {
        let pattern = count - 1;
        let before = row_sparse_work(dimension, width, offsets, period, variables, pattern as nat);
        row_entries_work(
            dimension,
            period,
            pattern,
            offsets,
            pattern * width,
            variables,
            entry_term_work(dimension, period, pattern, 0, variables, before),
            width,
        )
    }
}

/// The value of a matrix's multilinear extension, operation by operation.
pub open spec fn matrix_value<S>(
    ops: ScalarOps<S>,
    matrix: MatrixModel,
    row: Seq<S>,
    column: Seq<S>,
) -> S {
    match matrix {
        MatrixModel::Tridiagonal { dimension, margin, table, .. } => tridiagonal_terms(
            ops,
            dimension,
            margin,
            table,
            row,
            column,
            split_patterns(row.len(), table.len(), dimension - 1).active(),
        ),
        MatrixModel::DiaLaplacian { dimension, shift, edges, .. } => laplacian_terms(
            ops,
            dimension,
            shift,
            edges,
            row,
            column,
            edges.len(),
        ),
        MatrixModel::RowSparse { dimension, width, offsets, values, diagonal, .. } => {
            row_sparse_terms(
                ops,
                dimension,
                width,
                offsets,
                values,
                diagonal,
                row,
                column,
                split_patterns(row.len(), diagonal.len(), dimension as int).active(),
            )
        },
    }
}

/// Work of one matrix evaluation.
pub open spec fn matrix_work(matrix: MatrixModel) -> Work {
    let variables = powers::ceil_log2(matrix.dimension());
    match matrix {
        MatrixModel::Tridiagonal { dimension, table, .. } => tridiagonal_work(
            dimension,
            table.len(),
            variables,
            split_patterns(variables, table.len(), dimension - 1).active(),
        ),
        MatrixModel::DiaLaplacian { dimension, edges, .. } => laplacian_work(
            dimension,
            edges,
            variables,
            edges.len(),
        ),
        MatrixModel::RowSparse { dimension, width, offsets, diagonal, .. } => row_sparse_work(
            dimension,
            width,
            offsets,
            diagonal.len(),
            variables,
            split_patterns(variables, diagonal.len(), dimension as int).active(),
        ),
    }
}

/// Where displaced anchors stand, and that they stay inside the domain.
pub proof fn lemma_displace(
    variables: nat,
    period: nat,
    dimension: int,
    offset: int,
    pattern: int,
)
    requires
        matrix::is_period(period),
        0 <= offset < dimension <= pow2(variables),
        0 <= pattern < pow2(split_patterns(variables, period, dimension - offset).bits),
    ensures
        ({
            let split = split_patterns(variables, period, dimension - offset);
            let moved = displace(split.bits, pattern, offset);
            let size = pow2(split.bits) as int;
            let high = pow2((variables - split.bits) as nat) as int;
            let count = split.count(pattern);
            &&& 0 <= moved.next < size
            &&& 0 <= moved.shift < high
            &&& 0 <= moved.carry <= 1
            &&& pattern + offset == (moved.shift + moved.carry) * size + moved.next
            &&& 0 < count ==> count + moved.shift + moved.carry <= high
            &&& 0 < count && 0 < moved.shift + moved.carry ==> count < high
        }),
{
    lemma_split(variables, period, dimension - offset);
    lemma_pattern_count(variables, period, dimension - offset, pattern);
    let split = split_patterns(variables, period, dimension - offset);
    let moved = displace(split.bits, pattern, offset);
    let size = pow2(split.bits) as int;
    let high = pow2((variables - split.bits) as nat) as int;
    let count = split.count(pattern);
    let low = offset % size;
    let position = pattern + low;
    assert(offset == moved.shift * size + low && 0 <= low < size) by (nonlinear_arith)
        requires
            moved.shift == offset / size,
            low == offset % size,
            0 < size,
    ;
    assert(position == moved.carry * size + moved.next && 0 <= moved.next < size)
        by (nonlinear_arith)
        requires
            moved.carry == position / size,
            moved.next == position % size,
            0 < size,
    ;
    assert(0 <= moved.carry <= 1) by (nonlinear_arith)
        requires
            moved.carry == position / size,
            0 <= position < 2 * size,
    ;
    assert(pattern + offset == (moved.shift + moved.carry) * size + moved.next) by (nonlinear_arith)
        requires
            offset == moved.shift * size + low,
            position == moved.carry * size + moved.next,
            position == pattern + low,
    ;
    assert(0 <= moved.shift < high) by (nonlinear_arith)
        requires
            offset == moved.shift * size + low,
            0 <= offset < high * size,
            0 <= low < size,
    ;
    if count > 0 {
        let total = moved.shift + moved.carry;
        assert((count - 1 + total) * size + moved.next < high * size) by (nonlinear_arith)
            requires
                (count - 1) * size + pattern < dimension - offset,
                pattern + offset == total * size + moved.next,
                dimension <= high * size,
        ;
        assert(count - 1 + total < high) by (nonlinear_arith)
            requires
                (count - 1 + total) * size + moved.next < high * size,
                0 <= moved.next,
                0 < size,
        ;
    }
}

fn displace_pattern(split: Split, pattern: usize, offset: usize) -> (moved: (usize, usize, usize))
    requires
        split.period == pow2(split.bits as nat),
        0 < split.period <= 65536,
        pattern < split.period,
    ensures
        (Displacement {
            next: moved.0 as int,
            shift: moved.1 as int,
            carry: moved.2 as int,
        }) == displace(split.bits as nat, pattern as int, offset as int),
{
    let position: usize = pattern + offset % split.period;
    (position % split.period, offset / split.period, position / split.period)
}

/// The high factors of an edge pattern with a displacement.
fn edge_high_factors<I: MleInterpreter>(
    arithmetic: &mut Arithmetic<'_, I>,
    row_high: &[I::Scalar],
    column_high: &[I::Scalar],
    count: usize,
    shift: usize,
    carry: usize,
) -> (factors: (I::Scalar, I::Scalar, I::Scalar, I::Scalar))
    requires
        old(arithmetic).work@.below(mle::WORK_LIMIT - 10000),
        row_high@.len() == column_high@.len(),
        row_high@.len() <= mle::MAX_VARIABLES,
        carry <= 1,
        count + shift + carry <= pow2(row_high@.len()),
    ensures
        final(arithmetic).ops() == old(arithmetic).ops(),
        final(arithmetic).work@ == old(arithmetic).work@.plus(
            edge_factors_work(row_high@.len(), count as int, shift as int, carry as int),
        ),
        (EdgeFactors {
            equal: factors.0,
            forward: factors.1,
            reverse: factors.2,
            end: factors.3,
        }) == edge_factors(
            old(arithmetic).ops(),
            row_high@,
            column_high@,
            count as int,
            shift as int,
            carry as int,
        ),
{
    proof {
        lemma2_to64();
        if row_high@.len() < 30 {
            lemma_pow2_strictly_increases(row_high@.len(), 30);
        }
    }
    let equal = mle::bounded_equal_indices(arithmetic, row_high, column_high, count);
    if shift + carry == 0 {
        return (equal, equal, equal, equal);
    }
    let forward = mle::bounded_shifted_indices(
        arithmetic,
        row_high,
        column_high,
        count,
        shift,
        carry,
    );
    let reverse = mle::bounded_shifted_indices(
        arithmetic,
        column_high,
        row_high,
        count,
        shift,
        carry,
    );
    let through = mle::bounded_equal_indices(
        arithmetic,
        row_high,
        column_high,
        count + shift + carry,
    );
    let before = mle::bounded_equal_indices(arithmetic, row_high, column_high, shift + carry);
    let end = arithmetic.minus(through, before);
    (equal, forward, reverse, end)
}

proof fn lemma_edge_pattern_work(variables: nat, split: PatternSplit, offset: int, pattern: int)
    requires
        variables <= mle::MAX_VARIABLES,
        split.bits <= variables,
    ensures
        edge_pattern_work(variables, split, offset, pattern).below(1900),
        edge_pattern_work(variables, split, offset, pattern).terms == 0,
        edge_form_work(
            split.bits,
            pattern,
            displace(split.bits, pattern, offset).next,
        ).below(500),
{
    let moved = displace(split.bits, pattern, offset);
    mle::lemma_zero_bits(pattern, split.bits);
    mle::lemma_zero_bits(moved.next, split.bits);
}

/// What an edge pattern evaluation relies on.
proof fn lemma_edge_pattern(
    variables: nat,
    period: nat,
    dimension: int,
    offset: int,
    pattern: int,
)
    requires
        variables <= mle::MAX_VARIABLES,
        matrix::is_period(period),
        0 <= offset < dimension <= pow2(variables),
        0 <= pattern < split_patterns(variables, period, dimension - offset).active(),
    ensures
        ({
            let split = split_patterns(variables, period, dimension - offset);
            let size = pow2(split.bits) as int;
            let high = (variables - split.bits) as nat;
            let count = split.count(pattern);
            let moved = displace(split.bits, pattern, offset);
            &&& split.bits <= variables
            &&& pattern < size <= 65536
            &&& 0 <= moved.next < size
            &&& 0 <= moved.carry <= 1
            &&& 0 <= moved.shift
            &&& split.complete <= count
            &&& count + moved.shift + moved.carry <= pow2(high) <= 0x4000_0000
            &&& edge_factors_work(high, count, moved.shift, moved.carry).below(1900)
        }),
{
    lemma_split(variables, period, dimension - offset);
    lemma_pattern_count(variables, period, dimension - offset, pattern);
    lemma_displace(variables, period, dimension, offset, pattern);
    lemma2_to64();
    let split = split_patterns(variables, period, dimension - offset);
    let high = (variables - split.bits) as nat;
    if high < 30 {
        lemma_pow2_strictly_increases(high, 30);
    }
}

/// The quadratic form of one edge pattern at an offset.
fn evaluate_edge_pattern<I: MleInterpreter>(
    arithmetic: &mut Arithmetic<'_, I>,
    row: &CutPoint<'_, I::Scalar>,
    column: &CutPoint<'_, I::Scalar>,
    split: Split,
    offset: usize,
    pattern: usize,
    Ghost(row_point): Ghost<Seq<I::Scalar>>,
    Ghost(column_point): Ghost<Seq<I::Scalar>>,
    Ghost(period): Ghost<nat>,
    Ghost(dimension): Ghost<int>,
) -> (form: I::Scalar)
    requires
        old(arithmetic).work@.below(mle::WORK_LIMIT - 100000),
        row_point.len() == column_point.len(),
        row_point.len() <= mle::MAX_VARIABLES,
        matrix::is_period(period),
        0 <= offset < dimension <= pow2(row_point.len()),
        split.model() == split_patterns(row_point.len(), period, dimension - offset),
        split.period == pow2(split.bits as nat),
        row.high@ == high_part(row_point, split.bits as nat),
        row.low@ == low_part(row_point, split.bits as nat),
        column.high@ == high_part(column_point, split.bits as nat),
        column.low@ == low_part(column_point, split.bits as nat),
        pattern < split.model().active(),
    ensures
        final(arithmetic).ops() == old(arithmetic).ops(),
        final(arithmetic).work@ == old(arithmetic).work@.plus(
            edge_pattern_work(row_point.len(), split.model(), offset as int, pattern as int),
        ),
        form == edge_pattern_form(
            old(arithmetic).ops(),
            split.model(),
            offset as int,
            row_point,
            column_point,
            pattern as int,
        ),
{
    proof {
        lemma_edge_pattern(row_point.len(), period, dimension, offset as int, pattern as int);
    }
    let count: usize = split.count(pattern);
    let (next, shift, carry) = displace_pattern(split, pattern, offset);
    let factors = edge_high_factors(arithmetic, row.high, column.high, count, shift, carry);
    finish_edge(arithmetic, row.low, column.low, pattern, next, factors)
}

proof fn lemma_edge_terms_work(
    dimension: nat,
    edge: EdgeModel,
    variables: nat,
    start: Work,
    count: nat,
    bound: int,
)
    requires
        variables <= mle::MAX_VARIABLES,
        matrix::is_period(edge.table.len()),
        0 < edge.offset < dimension <= pow2(variables),
        start.below(bound),
    ensures
        edge_terms_work(dimension, edge, variables, start, count).below(
            bound + 2000 * count as int,
        ),
        edge_terms_work(dimension, edge, variables, start, count).terms == start.terms + count,
    decreases count,
{
    lemma_split(variables, edge.table.len(), dimension - edge.offset);
    if count > 0 {
        lemma_edge_terms_work(dimension, edge, variables, start, (count - 1) as nat, bound);
        lemma_edge_pattern_work(
            variables,
            split_patterns(variables, edge.table.len(), dimension - edge.offset),
            edge.offset as int,
            count - 1,
        );
    }
}

/// Adds the patterns of one edge diagonal to a value.
fn evaluate_edge<I: MleInterpreter>(
    arithmetic: &mut Arithmetic<'_, I>,
    matrix: &PeriodicSymmetricDiaLaplacian,
    edge: usize,
    row_point: &[I::Scalar],
    column_point: &[I::Scalar],
    start: I::Scalar,
) -> (value: I::Scalar)
    requires
        matrix.model().wf(),
        matrix.tables_fit(),
        edge < matrix.edges@.len(),
        old(arithmetic).work@.below(mle::WORK_LIMIT - 1000000000),
        row_point@.len() == column_point@.len(),
        row_point@.len() <= mle::MAX_VARIABLES,
        matrix.dimension <= pow2(row_point@.len()),
    ensures
        final(arithmetic).ops() == old(arithmetic).ops(),
        ({
            let model_edge = matrix.model().edges()[edge as int];
            let dimension = matrix.dimension as nat;
            let active = split_patterns(
                row_point@.len(),
                model_edge.table.len(),
                dimension - model_edge.offset,
            ).active();
            &&& active <= 65536
            &&& final(arithmetic).work@ == edge_terms_work(
                dimension,
                model_edge,
                row_point@.len(),
                old(arithmetic).work@,
                active,
            )
            &&& value == edge_terms(
                old(arithmetic).ops(),
                dimension,
                model_edge,
                row_point@,
                column_point@,
                start,
                active,
            )
        }),
{
    let ghost ops = arithmetic.ops();
    let ghost first = arithmetic.work@;
    let ghost model_edge = matrix.model().edges()[edge as int];
    let ghost dimension = matrix.dimension as nat;
    let ghost variables = row_point@.len();
    let descriptor = matrix.edges[edge];
    assert(model_edge == crate::compiled::described_edge(
        descriptor,
        matrix.off_diagonal_mantissas@,
    ));
    proof {
        lemma_split(variables, model_edge.table.len(), dimension - model_edge.offset);
    }
    let split = Split::new(
        row_point.len(),
        descriptor.table_len,
        matrix.dimension - descriptor.positive_offset,
    );
    let row = cut_point(row_point, split.bits);
    let column = cut_point(column_point, split.bits);
    let active: usize = split.active();
    let mut value = start;
    let mut pattern: usize = 0;
    while pattern < active
        invariant
            matrix.model().wf(),
            matrix.tables_fit(),
            edge < matrix.edges@.len(),
            descriptor == matrix.edges@[edge as int],
            model_edge == matrix.model().edges()[edge as int],
            model_edge == crate::compiled::described_edge(
                descriptor,
                matrix.off_diagonal_mantissas@,
            ),
            dimension == matrix.dimension,
            variables == row_point@.len(),
            variables == column_point@.len(),
            variables <= mle::MAX_VARIABLES,
            matrix::is_period(model_edge.table.len()),
            0 < model_edge.offset < dimension <= pow2(variables),
            split.model() == split_patterns(
                variables,
                model_edge.table.len(),
                dimension - model_edge.offset,
            ),
            split.period == pow2(split.bits as nat),
            split.period <= model_edge.table.len(),
            row.high@ == high_part(row_point@, split.bits as nat),
            row.low@ == low_part(row_point@, split.bits as nat),
            column.high@ == high_part(column_point@, split.bits as nat),
            column.low@ == low_part(column_point@, split.bits as nat),
            active == split.model().active(),
            active <= split.period <= 65536,
            pattern <= active,
            arithmetic.ops() == ops,
            ops == old(arithmetic).ops(),
            first == old(arithmetic).work@,
            first.below(mle::WORK_LIMIT - 1000000000),
            arithmetic.work@ == edge_terms_work(
                dimension,
                model_edge,
                variables,
                first,
                pattern as nat,
            ),
            value == edge_terms(
                ops,
                dimension,
                model_edge,
                row_point@,
                column_point@,
                start,
                pattern as nat,
            ),
        decreases active - pattern,
    {
        proof {
            lemma_edge_terms_work(
                dimension,
                model_edge,
                variables,
                first,
                pattern as nat,
                mle::WORK_LIMIT - 1000000000,
            );
            lemma_split(variables, model_edge.table.len(), dimension - model_edge.offset);
            lemma_edge_pattern_work(
                variables,
                split.model(),
                model_edge.offset as int,
                pattern as int,
            );
            assert(matrix.off_diagonal_mantissas.len() == matrix.off_diagonal_mantissas@.len());
        }
        let form = evaluate_edge_pattern(
            arithmetic,
            &row,
            &column,
            split,
            descriptor.positive_offset,
            pattern,
            Ghost(row_point@),
            Ghost(column_point@),
            Ghost(model_edge.table.len()),
            Ghost(dimension as int),
        );
        let edge_mantissa = arithmetic.embed_i64(
            matrix.off_diagonal_mantissas[descriptor.table_start + pattern],
        );
        let contribution = arithmetic.times(edge_mantissa, form);
        value = arithmetic.plus(value, contribution);
        arithmetic.work.periodic_terms = arithmetic.work.periodic_terms + 1;
        pattern = pattern + 1;
    }
    value
}

proof fn lemma_laplacian_work(
    matrix: MatrixModel,
    variables: nat,
    count: nat,
)
    requires
        matrix.wf(),
        matrix is DiaLaplacian,
        variables <= mle::MAX_VARIABLES,
        matrix.dimension() <= pow2(variables),
        count <= matrix.edges().len(),
    ensures
        laplacian_work(matrix.dimension(), matrix.edges(), variables, count).below(
            1000 + 131072000 * count as int,
        ),
    decreases count,
{
    if count > 0 {
        lemma_laplacian_work(matrix, variables, (count - 1) as nat);
        let edge = matrix.edges()[count - 1];
        lemma_split(variables, edge.table.len(), matrix.dimension() - edge.offset);
        lemma_edge_terms_work(
            matrix.dimension(),
            edge,
            variables,
            laplacian_work(matrix.dimension(), matrix.edges(), variables, (count - 1) as nat),
            split_patterns(
                variables,
                edge.table.len(),
                matrix.dimension() - edge.offset,
            ).active(),
            1000 + 131072000 * (count - 1),
        );
    }
}

fn evaluate_laplacian<I: MleInterpreter>(
    arithmetic: &mut Arithmetic<'_, I>,
    matrix: &PeriodicSymmetricDiaLaplacian,
    row_point: &[I::Scalar],
    column_point: &[I::Scalar],
) -> (value: I::Scalar)
    requires
        matrix.model().wf(),
        matrix.tables_fit(),
        old(arithmetic).work@ == mle::no_work(),
        row_point@.len() == powers::ceil_log2(matrix.dimension as nat),
        column_point@.len() == row_point@.len(),
    ensures
        final(arithmetic).ops() == old(arithmetic).ops(),
        final(arithmetic).work@ == matrix_work(matrix.model()),
        value == matrix_value(old(arithmetic).ops(), matrix.model(), row_point@, column_point@),
{
    let ghost ops = arithmetic.ops();
    let ghost model = matrix.model();
    let ghost variables = row_point@.len();
    proof {
        lemma2_to64();
        powers::lemma_padded(model.dimension());
        powers::lemma_ceil_log2_bound(model.dimension(), 30);
    }
    let active_diagonal = mle::bounded_equal_indices(
        arithmetic,
        row_point,
        column_point,
        matrix.dimension,
    );
    let shift = arithmetic.embed_i64(matrix.diagonal_shift_mantissa as i64);
    let mut value = arithmetic.times(shift, active_diagonal);
    let mut edge: usize = 0;
    while edge < matrix.edges.len()
        invariant
            model == matrix.model(),
            model.wf(),
            matrix.tables_fit(),
            variables == row_point@.len(),
            variables == column_point@.len(),
            variables <= mle::MAX_VARIABLES,
            matrix.dimension <= pow2(variables),
            edge <= matrix.edges@.len(),
            arithmetic.ops() == ops,
            ops == old(arithmetic).ops(),
            arithmetic.work@ == laplacian_work(
                model.dimension(),
                model.edges(),
                variables,
                edge as nat,
            ),
            value == laplacian_terms(
                ops,
                model.dimension(),
                model.margin(),
                model.edges(),
                row_point@,
                column_point@,
                edge as nat,
            ),
        decreases matrix.edges@.len() - edge,
    {
        proof {
            lemma_laplacian_work(model, variables, edge as nat);
        }
        value = evaluate_edge(arithmetic, matrix, edge, row_point, column_point, value);
        edge = edge + 1;
    }
    value
}

proof fn lemma_entry_form_work(variables: nat, split: PatternSplit, offset: int, pattern: int)
    requires
        variables <= mle::MAX_VARIABLES,
        split.bits <= variables,
    ensures
        entry_form_work(variables, split, offset, pattern).below(900),
        entry_form_work(variables, split, offset, pattern).terms == 0,
        displaced_high_work(
            (variables - split.bits) as nat,
            split.count(pattern),
            displace(split.bits, pattern, offset).shift,
            displace(split.bits, pattern, offset).carry,
        ).below(600),
{
    let moved = displace(split.bits, pattern, offset);
    mle::lemma_zero_bits(pattern, split.bits);
    mle::lemma_zero_bits(moved.next, split.bits);
}

/// What an entry evaluation relies on.
proof fn lemma_entry(variables: nat, period: nat, dimension: int, offset: int, pattern: int)
    requires
        variables <= mle::MAX_VARIABLES,
        matrix::is_period(period),
        0 <= offset < dimension <= pow2(variables),
        0 <= pattern < pow2(split_patterns(variables, period, dimension - offset).bits),
        split_patterns(variables, period, dimension - offset).count(pattern) > 0,
    ensures
        ({
            let split = split_patterns(variables, period, dimension - offset);
            let size = pow2(split.bits) as int;
            let high = (variables - split.bits) as nat;
            let count = split.count(pattern);
            let moved = displace(split.bits, pattern, offset);
            &&& split.bits <= variables
            &&& pattern < size <= 65536
            &&& 0 <= moved.next < size
            &&& 0 <= moved.carry <= 1
            &&& 0 <= moved.shift
            &&& count + moved.shift + moved.carry <= pow2(high) <= 0x4000_0000
        }),
{
    lemma_split(variables, period, dimension - offset);
    lemma_displace(variables, period, dimension, offset, pattern);
    lemma2_to64();
    let split = split_patterns(variables, period, dimension - offset);
    let high = (variables - split.bits) as nat;
    if high < 30 {
        lemma_pow2_strictly_increases(high, 30);
    }
}

/// The bilinear form of one displaced row pattern.
fn evaluate_entry_form<I: MleInterpreter>(
    arithmetic: &mut Arithmetic<'_, I>,
    anchors: &[I::Scalar],
    displaced: &[I::Scalar],
    split: Split,
    offset: usize,
    pattern: usize,
    Ghost(period): Ghost<nat>,
    Ghost(dimension): Ghost<int>,
) -> (form: I::Scalar)
    requires
        old(arithmetic).work@.below(mle::WORK_LIMIT - 100000),
        anchors@.len() == displaced@.len(),
        anchors@.len() <= mle::MAX_VARIABLES,
        matrix::is_period(period),
        0 <= offset < dimension <= pow2(anchors@.len()),
        split.model() == split_patterns(anchors@.len(), period, dimension - offset),
        split.period == pow2(split.bits as nat),
        pattern < split.period,
        split.model().count(pattern as int) > 0,
        split.complete < usize::MAX,
    ensures
        final(arithmetic).ops() == old(arithmetic).ops(),
        final(arithmetic).work@ == old(arithmetic).work@.plus(
            entry_form_work(anchors@.len(), split.model(), offset as int, pattern as int),
        ),
        form == entry_form(
            old(arithmetic).ops(),
            split.model(),
            offset as int,
            anchors@,
            displaced@,
            pattern as int,
        ),
{
    proof {
        lemma_entry(anchors@.len(), period, dimension, offset as int, pattern as int);
        lemma_entry_form_work(anchors@.len(), split.model(), offset as int, pattern as int);
        mle::lemma_zero_bits(pattern as int, split.bits as nat);
    }
    let left = cut_point(anchors, split.bits);
    let right = cut_point(displaced, split.bits);
    let count: usize = split.count(pattern);
    let (next, shift, carry) = displace_pattern(split, pattern, offset);
    let high = if shift + carry == 0 {
        mle::bounded_equal_indices(arithmetic, left.high, right.high, count)
    } else {
        mle::bounded_shifted_indices(arithmetic, left.high, right.high, count, shift, carry)
    };
    let anchor_low = mle::eq_index(arithmetic, left.low, pattern);
    let displaced_low = mle::eq_index(arithmetic, right.low, next);
    let low = arithmetic.times(anchor_low, displaced_low);
    arithmetic.times(low, high)
}

/// Adds one weighted entry of a row pattern to a value.
fn evaluate_entry<I: MleInterpreter>(
    arithmetic: &mut Arithmetic<'_, I>,
    dimension: usize,
    period: usize,
    pattern: usize,
    offset: i32,
    mantissa: i64,
    row_point: &[I::Scalar],
    column_point: &[I::Scalar],
    start: I::Scalar,
) -> (value: I::Scalar)
    requires
        old(arithmetic).work@.below(mle::WORK_LIMIT - 200000),
        row_point@.len() == column_point@.len(),
        row_point@.len() <= mle::MAX_VARIABLES,
        matrix::is_period(period as nat),
        period <= pow2(row_point@.len()),
        problem::magnitude(offset as int) < dimension <= pow2(row_point@.len()),
        dimension <= 0x4000_0000,
        pattern < period,
    ensures
        final(arithmetic).ops() == old(arithmetic).ops(),
        final(arithmetic).work@ == entry_term_work(
            dimension as nat,
            period as nat,
            pattern as int,
            offset as int,
            row_point@.len(),
            old(arithmetic).work@,
        ),
        value == entry_term(
            old(arithmetic).ops(),
            dimension as nat,
            period as nat,
            pattern as int,
            offset as int,
            mantissa as int,
            row_point@,
            column_point@,
            start,
        ),
{
    let distance: usize = if offset >= 0 {
        offset as usize
    } else {
        (-(offset as i64)) as usize
    };
    let ghost variables = row_point@.len();
    proof {
        lemma_split(variables, period as nat, dimension - distance);
        lemma_full_period(variables, period as nat, dimension - distance);
    }
    let split = Split::new(row_point.len(), period, dimension - distance);
    let anchor: usize = if offset >= 0 {
        pattern
    } else {
        let moved: i64 = pattern as i64 + offset as i64;
        let reduced: i64 = if moved >= 0 {
            moved % (period as i64)
        } else {
            let back: i64 = (-moved) % (period as i64);
            if back == 0 {
                0
            } else {
                period as i64 - back
            }
        };
        proof {
            if moved < 0 {
                lemma_negative_remainder(-(moved as int), period as int);
            }
        }
        reduced as usize
    };
    proof {
        assert(anchor == anchor_pattern(period as int, pattern as int, offset as int));
        lemma_pattern_count(variables, period as nat, dimension - distance, anchor as int);
        lemma_entry_form_work(variables, split.model(), distance as int, anchor as int);
    }
    if split.count(anchor) == 0 {
        arithmetic.work.periodic_terms = arithmetic.work.periodic_terms + 1;
        return start;
    }
    let form = if offset >= 0 {
        evaluate_entry_form(
            arithmetic,
            row_point,
            column_point,
            split,
            distance,
            anchor,
            Ghost(period as nat),
            Ghost(dimension as int),
        )
    } else {
        evaluate_entry_form(
            arithmetic,
            column_point,
            row_point,
            split,
            distance,
            anchor,
            Ghost(period as nat),
            Ghost(dimension as int),
        )
    };
    let scalar = arithmetic.embed_i64(mantissa);
    let contribution = arithmetic.times(scalar, form);
    let value = arithmetic.plus(start, contribution);
    arithmetic.work.periodic_terms = arithmetic.work.periodic_terms + 1;
    value
}

proof fn lemma_negative_remainder(value: int, period: int)
    requires
        0 < value,
        0 < period,
    ensures
        (-value) % period == if value % period == 0 {
            0
        } else {
            period - value % period
        },
{
    let quotient = value / period;
    let remainder = value % period;
    assert(value == quotient * period + remainder && 0 <= remainder < period) by (nonlinear_arith)
        requires
            quotient == value / period,
            remainder == value % period,
            0 < period,
    ;
    if remainder == 0 {
        assert(-value == (-quotient) * period + 0) by (nonlinear_arith)
            requires
                value == quotient * period,
        ;
        vstd::arithmetic::div_mod::lemma_fundamental_div_mod_converse(
            -value,
            period,
            -quotient,
            0,
        );
    } else {
        assert(-value == (-quotient - 1) * period + (period - remainder)) by (nonlinear_arith)
            requires
                value == quotient * period + remainder,
        ;
        vstd::arithmetic::div_mod::lemma_fundamental_div_mod_converse(
            -value,
            period,
            -quotient - 1,
            period - remainder,
        );
    }
}

/// A period that fits the domain is cut at its own length.
proof fn lemma_full_period(variables: nat, period: nat, limit: int)
    requires
        matrix::is_period(period),
        period <= pow2(variables),
    ensures
        pow2(split_patterns(variables, period, limit).bits) == period,
{
    let bits = choose|bits: nat|
        bits <= problem::MAX_PERIOD_BITS && period == #[trigger] pow2(bits);
    if bits > 0 {
        lemma_pow2_strictly_increases((bits - 1) as nat, bits);
    }
    powers::lemma_padded_unique(period, bits);
    if variables < bits {
        lemma_pow2_strictly_increases(variables, bits);
    }
}

proof fn lemma_entry_term_work(
    dimension: nat,
    period: nat,
    pattern: int,
    offset: int,
    variables: nat,
    start: Work,
    bound: int,
)
    requires
        variables <= mle::MAX_VARIABLES,
        matrix::is_period(period),
        problem::magnitude(offset) <= dimension <= pow2(variables),
        start.below(bound),
    ensures
        entry_term_work(dimension, period, pattern, offset, variables, start).below(bound + 1000),
        entry_term_work(dimension, period, pattern, offset, variables, start).terms == start.terms
            + 1,
{
    let distance = problem::magnitude(offset) as int;
    let split = split_patterns(variables, period, dimension - distance);
    lemma_split(variables, period, dimension - distance);
    lemma_entry_form_work(
        variables,
        split,
        distance,
        anchor_pattern(period as int, pattern, offset),
    );
}

proof fn lemma_row_entries_work(
    dimension: nat,
    period: nat,
    pattern: int,
    offsets: Seq<i32>,
    first: int,
    variables: nat,
    start: Work,
    count: nat,
    bound: int,
)
    requires
        variables <= mle::MAX_VARIABLES,
        matrix::is_period(period),
        dimension <= pow2(variables),
        start.below(bound),
        forall|k: int|
            first <= k < first + count ==> problem::magnitude(#[trigger] offsets[k] as int)
                <= dimension,
    ensures
        row_entries_work(dimension, period, pattern, offsets, first, variables, start, count).below(
            bound + 1000 * count as int,
        ),
        row_entries_work(
            dimension,
            period,
            pattern,
            offsets,
            first,
            variables,
            start,
            count,
        ).terms == start.terms + count,
    decreases count,
{
    if count > 0 {
        let before = (count - 1) as nat;
        lemma_row_entries_work(
            dimension,
            period,
            pattern,
            offsets,
            first,
            variables,
            start,
            before,
            bound,
        );
        lemma_entry_term_work(
            dimension,
            period,
            pattern,
            offsets[first + count - 1] as int,
            variables,
            row_entries_work(
                dimension,
                period,
                pattern,
                offsets,
                first,
                variables,
                start,
                before,
            ),
            bound + 1000 * before as int,
        );
    }
}

/// Adds the entries of one row pattern to a value.
fn evaluate_row_pattern<I: MleInterpreter>(
    arithmetic: &mut Arithmetic<'_, I>,
    matrix: &PeriodicNonsymmetricRowSparse,
    pattern: usize,
    row_point: &[I::Scalar],
    column_point: &[I::Scalar],
    start: I::Scalar,
) -> (value: I::Scalar)
    requires
        matrix.model().wf(),
        old(arithmetic).work@.below(mle::WORK_LIMIT - 1000000),
        row_point@.len() == column_point@.len(),
        row_point@.len() <= mle::MAX_VARIABLES,
        matrix.dimension <= pow2(row_point@.len()),
        matrix.diagonal_mantissas@.len() <= pow2(row_point@.len()),
        pattern < matrix.diagonal_mantissas@.len(),
    ensures
        final(arithmetic).ops() == old(arithmetic).ops(),
        final(arithmetic).work@ == row_entries_work(
            matrix.dimension as nat,
            matrix.diagonal_mantissas@.len(),
            pattern as int,
            matrix.signed_offsets@,
            pattern * matrix.off_diagonals_per_pattern,
            row_point@.len(),
            entry_term_work(
                matrix.dimension as nat,
                matrix.diagonal_mantissas@.len(),
                pattern as int,
                0,
                row_point@.len(),
                old(arithmetic).work@,
            ),
            matrix.off_diagonals_per_pattern as nat,
        ),
        value == row_entries(
            old(arithmetic).ops(),
            matrix.dimension as nat,
            matrix.diagonal_mantissas@.len(),
            pattern as int,
            matrix.signed_offsets@,
            matrix.off_diagonal_mantissas@,
            pattern * matrix.off_diagonals_per_pattern,
            row_point@,
            column_point@,
            entry_term(
                old(arithmetic).ops(),
                matrix.dimension as nat,
                matrix.diagonal_mantissas@.len(),
                pattern as int,
                0,
                matrix.diagonal_mantissas@[pattern as int] as int,
                row_point@,
                column_point@,
                start,
            ),
            matrix.off_diagonals_per_pattern as nat,
        ),
{
    let ghost ops = arithmetic.ops();
    let ghost begin = arithmetic.work@;
    let ghost variables = row_point@.len();
    let ghost dimension = matrix.dimension as nat;
    let ghost offsets = matrix.signed_offsets@;
    let ghost bound = mle::WORK_LIMIT - 999000;
    let period: usize = matrix.period();
    let width: usize = matrix.off_diagonals_per_pattern;
    proof {
        crate::compiled::lemma_pattern_range(pattern as int, period as int, width as int);
        assert(matrix.signed_offsets.len() == offsets.len());
        lemma_entry_term_work(
            dimension,
            period as nat,
            pattern as int,
            0,
            variables,
            begin,
            mle::WORK_LIMIT - 1000000,
        );
    }
    let first: usize = pattern * width;
    let mut value = evaluate_entry(
        arithmetic,
        matrix.dimension,
        period,
        pattern,
        0,
        matrix.diagonal_mantissas[pattern],
        row_point,
        column_point,
        start,
    );
    let ghost own = arithmetic.work@;
    let ghost own_value = value;
    let mut index: usize = 0;
    while index < width
        invariant
            matrix.model().wf(),
            dimension == matrix.dimension,
            offsets == matrix.signed_offsets@,
            matrix.signed_offsets.len() == offsets.len(),
            variables == row_point@.len(),
            variables == column_point@.len(),
            variables <= mle::MAX_VARIABLES,
            dimension <= pow2(variables),
            period == matrix.diagonal_mantissas@.len(),
            period <= pow2(variables),
            pattern < period,
            width == matrix.off_diagonals_per_pattern,
            first == pattern * width,
            first + width <= offsets.len(),
            index <= width,
            own.below(bound),
            bound == mle::WORK_LIMIT - 999000,
            arithmetic.ops() == ops,
            arithmetic.work@ == row_entries_work(
                dimension,
                period as nat,
                pattern as int,
                offsets,
                first as int,
                variables,
                own,
                index as nat,
            ),
            value == row_entries(
                ops,
                dimension,
                period as nat,
                pattern as int,
                offsets,
                matrix.off_diagonal_mantissas@,
                first as int,
                row_point@,
                column_point@,
                own_value,
                index as nat,
            ),
        decreases width - index,
    {
        proof {
            assert forall|k: int| first <= k < first + index implies problem::magnitude(
                #[trigger] offsets[k] as int,
            ) <= dimension by {
                assert(offsets[pattern * width + (k - first)] != 0);
            }
            assert(offsets[pattern * width + index] != 0);
            lemma_row_entries_work(
                dimension,
                period as nat,
                pattern as int,
                offsets,
                first as int,
                variables,
                own,
                index as nat,
                bound,
            );
        }
        value =
        evaluate_entry(
            arithmetic,
            matrix.dimension,
            period,
            pattern,
            matrix.signed_offsets[first + index],
            matrix.off_diagonal_mantissas[first + index],
            row_point,
            column_point,
            value,
        );
        index = index + 1;
    }
    value
}

proof fn lemma_row_sparse_work(
    matrix: MatrixModel,
    variables: nat,
    count: nat,
)
    requires
        matrix.wf(),
        variables <= mle::MAX_VARIABLES,
        matrix.dimension() <= pow2(variables),
    ensures
        matrix matches MatrixModel::RowSparse { dimension, width, offsets, diagonal, .. } ==> (count
            <= diagonal.len() ==> row_sparse_work(
            dimension,
            width,
            offsets,
            diagonal.len(),
            variables,
            count,
        ).below(255000 * count as int) && row_sparse_work(
            dimension,
            width,
            offsets,
            diagonal.len(),
            variables,
            count,
        ).terms == count * (width + 1)),
    decreases count,
{
    if let MatrixModel::RowSparse { dimension, width, offsets, diagonal, .. } = matrix {
        if 0 < count <= diagonal.len() {
            let pattern = count - 1;
            let period = diagonal.len();
            lemma_row_sparse_work(matrix, variables, pattern as nat);
            let before = row_sparse_work(
                dimension,
                width,
                offsets,
                period,
                variables,
                pattern as nat,
            );
            lemma_entry_term_work(
                dimension,
                period,
                pattern,
                0,
                variables,
                before,
                255000 * pattern,
            );
            assert forall|k: int| pattern * width <= k < pattern * width + width implies
                problem::magnitude(#[trigger] offsets[k] as int) <= dimension by {
                assert(offsets[pattern * width + (k - pattern * width)] != 0);
            }
            lemma_row_entries_work(
                dimension,
                period,
                pattern,
                offsets,
                pattern * width,
                variables,
                entry_term_work(dimension, period, pattern, 0, variables, before),
                width,
                255000 * pattern + 1000,
            );
            assert(pattern * (width + 1) + (width + 1) == count * (width + 1)) by (nonlinear_arith)
                requires
                    pattern == count - 1,
            ;
        } else if count == 0 {
            assert(0 * (width + 1) == 0) by (nonlinear_arith);
        }
    }
}

fn evaluate_row_sparse<I: MleInterpreter>(
    arithmetic: &mut Arithmetic<'_, I>,
    matrix: &PeriodicNonsymmetricRowSparse,
    row_point: &[I::Scalar],
    column_point: &[I::Scalar],
) -> (value: I::Scalar)
    requires
        matrix.model().wf(),
        matrix.diagonal_mantissas@.len() <= powers::padded(matrix.dimension as nat),
        old(arithmetic).work@ == mle::no_work(),
        row_point@.len() == powers::ceil_log2(matrix.dimension as nat),
        column_point@.len() == row_point@.len(),
    ensures
        final(arithmetic).ops() == old(arithmetic).ops(),
        final(arithmetic).work@ == matrix_work(matrix.model()),
        value == matrix_value(old(arithmetic).ops(), matrix.model(), row_point@, column_point@),
{
    let ghost ops = arithmetic.ops();
    let ghost model = matrix.model();
    let ghost variables = row_point@.len();
    let ghost dimension = matrix.dimension as nat;
    let ghost width = matrix.off_diagonals_per_pattern as nat;
    let period: usize = matrix.period();
    proof {
        lemma2_to64();
        powers::lemma_padded(dimension);
        powers::lemma_ceil_log2_bound(dimension, 30);
        lemma_split(variables, period as nat, dimension as int);
        lemma_full_period(variables, period as nat, dimension as int);
    }
    let split = Split::new(row_point.len(), period, matrix.dimension);
    let active: usize = split.active();
    let mut value = arithmetic.zero();
    let mut pattern: usize = 0;
    while pattern < active
        invariant
            model == matrix.model(),
            model.wf(),
            dimension == matrix.dimension,
            width == matrix.off_diagonals_per_pattern,
            period == matrix.diagonal_mantissas@.len(),
            variables == row_point@.len(),
            variables == column_point@.len(),
            variables <= mle::MAX_VARIABLES,
            dimension <= pow2(variables),
            period <= pow2(variables),
            active <= period <= 65536,
            pattern <= active,
            arithmetic.ops() == ops,
            ops == old(arithmetic).ops(),
            arithmetic.work@ == row_sparse_work(
                dimension,
                width,
                matrix.signed_offsets@,
                period as nat,
                variables,
                pattern as nat,
            ),
            value == row_sparse_terms(
                ops,
                dimension,
                width,
                matrix.signed_offsets@,
                matrix.off_diagonal_mantissas@,
                matrix.diagonal_mantissas@,
                row_point@,
                column_point@,
                pattern as nat,
            ),
        decreases active - pattern,
    {
        proof {
            lemma_row_sparse_work(model, variables, pattern as nat);
        }
        value =
        evaluate_row_pattern(arithmetic, matrix, pattern, row_point, column_point, value);
        pattern = pattern + 1;
    }
    value
}

/// Evaluates the multilinear extension of a compiled matrix.
pub(crate) fn evaluate_family<I: MleInterpreter>(
    arithmetic: &mut Arithmetic<'_, I>,
    family: &CompiledMatrixFamily,
    row_point: &[I::Scalar],
    column_point: &[I::Scalar],
) -> (value: I::Scalar)
    requires
        family.wf(),
        old(arithmetic).work@ == mle::no_work(),
        row_point@.len() == powers::ceil_log2(family.model().dimension()),
        column_point@.len() == row_point@.len(),
    ensures
        final(arithmetic).ops() == old(arithmetic).ops(),
        final(arithmetic).work@ == matrix_work(family.model()),
        value == matrix_value(old(arithmetic).ops(), family.model(), row_point@, column_point@),
{
    match family {
        CompiledMatrixFamily::Tridiagonal(matrix) => evaluate_tridiagonal(
            arithmetic,
            matrix,
            row_point,
            column_point,
        ),
        CompiledMatrixFamily::SymmetricDiaLaplacian(matrix) => evaluate_laplacian(
            arithmetic,
            matrix,
            row_point,
            column_point,
        ),
        CompiledMatrixFamily::NonsymmetricRowSparse(matrix) => evaluate_row_sparse(
            arithmetic,
            matrix,
            row_point,
            column_point,
        ),
    }
}

/// The total weights of the high indices of whole periods, and of the last
/// incomplete one.
pub open spec fn period_weights<S>(ops: ScalarOps<S>, split: PatternSplit, high: Seq<S>) -> (S, S) {
    let complete = mle::index_sum(ops, high, split.complete);
    let partial = if split.partial == 0 {
        ops.zero
    } else {
        (ops.difference)(mle::index_sum(ops, high, split.complete + 1), complete)
    };
    (complete, partial)
}

pub open spec fn period_weights_work(split: PatternSplit, high: nat) -> Work {
    let complete = mle::index_sum_work(split.complete, high);
    if split.partial == 0 {
        complete
    } else {
        complete.plus(mle::index_sum_work(split.complete + 1, high)).plus(
            mle::operations(0, 1, 0),
        )
    }
}

/// The first `count` patterns of a periodic right-hand-side evaluation.
pub open spec fn rhs_terms<S>(
    ops: ScalarOps<S>,
    dimension: nat,
    table: Seq<i64>,
    row: Seq<S>,
    count: nat,
) -> S
    decreases count,
{
    if count == 0 {
        ops.zero
    } else {
        let pattern = count - 1;
        let split = split_patterns(row.len(), table.len(), dimension as int);
        let weights = period_weights(ops, split, high_part(row, split.bits));
        let high = if pattern < split.partial {
            (ops.sum)(weights.0, weights.1)
        } else {
            weights.0
        };
        (ops.sum)(
            rhs_terms(ops, dimension, table, row, pattern as nat),
            (ops.product)(
                (ops.product)(mle::basis(ops, low_part(row, split.bits), pattern), high),
                (ops.embed)(table[pattern] as int),
            ),
        )
    }
}

pub open spec fn rhs_terms_work(dimension: nat, period: nat, variables: nat, count: nat) -> Work
    decreases count,
{
    let split = split_patterns(variables, period, dimension as int);
    if count == 0 {
        period_weights_work(split, (variables - split.bits) as nat)
    } else {
        let pattern = count - 1;
        rhs_terms_work(dimension, period, variables, pattern as nat).plus(
            mle::basis_work(pattern, split.bits),
        ).plus(
            Work {
                terms: 1,
                additions: if pattern < split.partial {
                    2
                } else {
                    1
                },
                subtractions: 0,
                multiplications: 2,
            },
        )
    }
}

/// The value of a right-hand side's multilinear extension, operation by
/// operation.
pub open spec fn rhs_value<S>(ops: ScalarOps<S>, rhs: RhsModel, row: Seq<S>) -> S {
    match rhs {
        RhsModel::Constant { dimension, value } => (ops.product)(
            (ops.embed)(value.mantissa as int),
            mle::index_sum(ops, row, dimension as int),
        ),
        RhsModel::Periodic { dimension, table, .. } => rhs_terms(
            ops,
            dimension,
            table,
            row,
            split_patterns(row.len(), table.len(), dimension as int).active(),
        ),
    }
}

/// Work of one right-hand-side evaluation.
pub open spec fn rhs_work(rhs: RhsModel) -> Work {
    let variables = powers::ceil_log2(rhs.dimension());
    match rhs {
        RhsModel::Constant { dimension, .. } => mle::index_sum_work(
            dimension as int,
            variables,
        ).plus(Work { terms: 1, additions: 0, subtractions: 0, multiplications: 1 }),
        RhsModel::Periodic { dimension, table, .. } => rhs_terms_work(
            dimension,
            table.len(),
            variables,
            split_patterns(variables, table.len(), dimension as int).active(),
        ),
    }
}

proof fn lemma_rhs_terms_work(dimension: nat, period: nat, variables: nat, count: nat)
    requires
        variables <= mle::MAX_VARIABLES,
        matrix::is_period(period),
        dimension <= pow2(variables),
    ensures
        rhs_terms_work(dimension, period, variables, count).below(1000 + 100 * count as int),
        rhs_terms_work(dimension, period, variables, count).terms == count,
    decreases count,
{
    lemma_split(variables, period, dimension as int);
    let split = split_patterns(variables, period, dimension as int);
    if count > 0 {
        lemma_rhs_terms_work(dimension, period, variables, (count - 1) as nat);
        mle::lemma_zero_bits(count - 1, split.bits);
    }
}

/// Evaluates the multilinear extension of a periodic right-hand side.
pub(crate) fn evaluate_periodic_rhs<I: MleInterpreter>(
    arithmetic: &mut Arithmetic<'_, I>,
    dimension: usize,
    table: &[i64],
    row_point: &[I::Scalar],
) -> (value: I::Scalar)
    requires
        old(arithmetic).work@ == mle::no_work(),
        2 <= dimension <= problem::MAX_DIMENSION,
        matrix::is_period(table@.len()),
        row_point@.len() == powers::ceil_log2(dimension as nat),
    ensures
        final(arithmetic).ops() == old(arithmetic).ops(),
        ({
            let active = split_patterns(
                row_point@.len(),
                table@.len(),
                dimension as int,
            ).active();
            &&& final(arithmetic).work@ == rhs_terms_work(
                dimension as nat,
                table@.len(),
                row_point@.len(),
                active,
            )
            &&& value == rhs_terms(
                old(arithmetic).ops(),
                dimension as nat,
                table@,
                row_point@,
                active,
            )
        }),
{
    let ghost ops = arithmetic.ops();
    let ghost variables = row_point@.len();
    proof {
        lemma2_to64();
        powers::lemma_padded(dimension as nat);
        powers::lemma_ceil_log2_bound(dimension as nat, 30);
        lemma_split(variables, table@.len(), dimension as int);
    }
    let split = Split::new(row_point.len(), table.len(), dimension);
    let cut = cut_point(row_point, split.bits);
    let ghost model = split.model();
    let ghost high_size = pow2((variables - split.bits) as nat) as int;
    proof {
        if variables - split.bits < 30 {
            lemma_pow2_strictly_increases((variables - split.bits) as nat, 30);
        }
        if model.partial != 0 {
            let size = pow2(model.bits) as int;
            assert(model.complete < high_size) by (nonlinear_arith)
                requires
                    dimension as int == model.complete * size + model.partial,
                    0 < model.partial,
                    dimension <= high_size * size,
                    0 < size,
            ;
        }
    }
    let complete_weight = mle::bounded_index_sum(arithmetic, cut.high, split.complete);
    let partial_weight = if split.partial == 0 {
        arithmetic.zero()
    } else {
        let through = mle::bounded_index_sum(arithmetic, cut.high, split.complete + 1);
        arithmetic.minus(through, complete_weight)
    };
    let active: usize = split.active();
    let mut result = arithmetic.zero();
    let mut pattern: usize = 0;
    while pattern < active
        invariant
            variables == row_point@.len(),
            variables <= mle::MAX_VARIABLES,
            matrix::is_period(table@.len()),
            dimension <= pow2(variables),
            model == split.model(),
            model == split_patterns(variables, table@.len(), dimension as int),
            split.period == pow2(split.bits as nat),
            split.period <= table@.len(),
            cut.high@ == high_part(row_point@, split.bits as nat),
            cut.low@ == low_part(row_point@, split.bits as nat),
            cut.low@.len() == split.bits,
            split.bits <= 16,
            (complete_weight, partial_weight) == period_weights(ops, model, cut.high@),
            active == model.active(),
            active <= split.period <= 65536,
            pattern <= active,
            arithmetic.ops() == ops,
            arithmetic.work@ == rhs_terms_work(
                dimension as nat,
                table@.len(),
                variables,
                pattern as nat,
            ),
            result == rhs_terms(ops, dimension as nat, table@, row_point@, pattern as nat),
        decreases active - pattern,
    {
        proof {
            lemma_rhs_terms_work(dimension as nat, table@.len(), variables, pattern as nat);
            mle::lemma_zero_bits(pattern as int, split.bits as nat);
        }
        let low_weight = mle::eq_index(arithmetic, cut.low, pattern);
        let high_weight = if pattern < split.partial {
            arithmetic.plus(complete_weight, partial_weight)
        } else {
            complete_weight
        };
        let weight = arithmetic.times(low_weight, high_weight);
        let mantissa = arithmetic.embed_i64(table[pattern]);
        let contribution = arithmetic.times(weight, mantissa);
        result = arithmetic.plus(result, contribution);
        arithmetic.work.periodic_terms = arithmetic.work.periodic_terms + 1;
        pattern = pattern + 1;
    }
    result
}

/// Every evaluation stays far below the counter limit.
pub proof fn lemma_matrix_work(matrix: MatrixModel)
    requires
        matrix.wf(),
    ensures
        matrix_work(matrix).below(100000000000),
{
    let dimension = matrix.dimension();
    let variables = powers::ceil_log2(dimension);
    lemma2_to64();
    powers::lemma_padded(dimension);
    powers::lemma_ceil_log2_bound(dimension, 30);
    match matrix {
        MatrixModel::Tridiagonal { table, .. } => {
            assert(matrix.edges()[0].table == table);
            lemma_split(variables, table.len(), dimension - 1);
            lemma_tridiagonal_work(
                dimension,
                table.len(),
                variables,
                split_patterns(variables, table.len(), dimension - 1).active(),
            );
        },
        MatrixModel::DiaLaplacian { edges, .. } => {
            lemma_laplacian_work(matrix, variables, edges.len());
        },
        MatrixModel::RowSparse { diagonal, .. } => {
            lemma_split(variables, diagonal.len(), dimension as int);
            lemma_row_sparse_work(
                matrix,
                variables,
                split_patterns(variables, diagonal.len(), dimension as int).active(),
            );
        },
    }
}

/// Every evaluation stays far below the counter limit.
pub proof fn lemma_rhs_work(rhs: RhsModel)
    requires
        rhs.wf(),
    ensures
        rhs_work(rhs).below(100000000000),
{
    let dimension = rhs.dimension();
    let variables = powers::ceil_log2(dimension);
    lemma2_to64();
    powers::lemma_padded(dimension);
    powers::lemma_ceil_log2_bound(dimension, 30);
    if let RhsModel::Periodic { table, .. } = rhs {
        lemma_split(variables, table.len(), dimension as int);
        lemma_rhs_terms_work(
            dimension,
            table.len(),
            variables,
            split_patterns(variables, table.len(), dimension as int).active(),
        );
    }
}

/// A tridiagonal evaluation visits each pattern of its table at most once, and
/// no more of them than there are points of the domain. Its operations are
/// bounded by that number of terms, whatever the number of matrix entries.
pub proof fn tridiagonal_terms_are_bounded(matrix: MatrixModel)
    requires
        matrix.wf(),
        matrix is Tridiagonal,
    ensures
        matrix_work(matrix).terms <= matrix->Tridiagonal_table.len(),
        matrix_work(matrix).terms <= pow2(powers::ceil_log2(matrix.dimension())),
        matrix_work(matrix).below(1000 + 2000 * matrix_work(matrix).terms as int),
{
    let dimension = matrix.dimension();
    let variables = powers::ceil_log2(dimension);
    let table = matrix->Tridiagonal_table;
    powers::lemma_padded(dimension);
    lemma2_to64();
    powers::lemma_ceil_log2_bound(dimension, 30);
    assert(matrix.edges()[0].table == table);
    lemma_split(variables, table.len(), dimension - 1);
    let split = split_patterns(variables, table.len(), dimension - 1);
    lemma_tridiagonal_work(dimension, table.len(), variables, split.active());
    if split.bits < variables {
        lemma_pow2_strictly_increases(split.bits, variables);
    }
}

/// A right-hand-side evaluation visits each pattern of its table at most once,
/// and no more of them than there are points of the domain. Its operations are
/// bounded by that number of terms, whatever the number of rows.
pub proof fn rhs_terms_are_bounded(rhs: RhsModel)
    requires
        rhs.wf(),
    ensures
        rhs matches RhsModel::Periodic { table, .. } ==> rhs_work(rhs).terms <= table.len(),
        rhs is Constant ==> rhs_work(rhs).terms == 1,
        rhs_work(rhs).terms <= pow2(powers::ceil_log2(rhs.dimension())),
        rhs_work(rhs).below(1000 + 100 * rhs_work(rhs).terms as int),
{
    let dimension = rhs.dimension();
    let variables = powers::ceil_log2(dimension);
    powers::lemma_padded(dimension);
    lemma2_to64();
    powers::lemma_ceil_log2_bound(dimension, 30);
    if let RhsModel::Periodic { table, .. } = rhs {
        lemma_split(variables, table.len(), dimension as int);
        let split = split_patterns(variables, table.len(), dimension as int);
        lemma_rhs_terms_work(dimension, table.len(), variables, split.active());
        if split.bits < variables {
            lemma_pow2_strictly_increases(split.bits, variables);
        }
    } else {
        lemma_pow2_pos(variables);
    }
}

} // verus!
