//! The evaluators compute complete scans: over the integers, the value of each
//! evaluation is the sum over all rows and columns.

use vstd::arithmetic::power2::*;
use vstd::prelude::*;

use crate::evaluation;
use crate::generator::RhsModel;
use crate::matrix;
use crate::matrix::{EdgeModel, MatrixModel};
use crate::matrix_laws;
use crate::mle_laws;
use crate::powers;
use crate::problem;
use crate::sums;

verus! {

/// The product of a row weight and a column weight.
pub open spec fn weight_pair(row: Seq<int>, column: Seq<int>, i: int, j: int) -> int {
    mle_laws::weight(row, i) * mle_laws::weight(column, j)
}

/// The multilinear extension of a matrix as a scan over all its entries.
pub open spec fn matrix_scan(matrix: MatrixModel, row: Seq<int>, column: Seq<int>) -> int {
    sums::sum_below(
        matrix.dimension(),
        |i: int|
            sums::sum_below(
                matrix.dimension(),
                |j: int| matrix.coefficient(i, j) * weight_pair(row, column, i, j),
            ),
    )
}

/// The multilinear extension of a right-hand side as a scan over all entries.
pub open spec fn rhs_scan(rhs: RhsModel, row: Seq<int>) -> int {
    sums::sum_below(
        rhs.dimension(),
        |i: int| rhs.mantissa(i) * mle_laws::weight(row, i),
    )
}

/// The sum of the values at the anchors of one pattern.
pub open spec fn pattern_sum(
    period: int,
    pattern: int,
    count: int,
    value: spec_fn(int) -> int,
) -> int {
    sums::sum_below(count as nat, |h: int| value(h * period + pattern))
}

proof fn lemma_blocks(blocks: nat, period: nat, value: spec_fn(int) -> int)
    requires
        0 < period,
    ensures
        sums::sum_below(blocks * period, value) == sums::sum_below(
            period,
            |p: int| pattern_sum(period as int, p, blocks as int, value),
        ),
    decreases blocks,
{
    let by_pattern = |p: int| pattern_sum(period as int, p, blocks as int, value);
    if blocks == 0 {
        assert(blocks * period == 0) by (nonlinear_arith)
            requires
                blocks == 0,
        ;
        assert forall|p: int| 0 <= p < period implies #[trigger] by_pattern(p) == 0 by {}
        sums::lemma_sum_zero(period, by_pattern);
    } else {
        let fewer = (blocks - 1) as nat;
        lemma_blocks(fewer, period, value);
        assert(fewer * period + period == blocks * period) by (nonlinear_arith)
            requires
                fewer == blocks - 1,
        ;
        sums::lemma_sum_split(fewer * period, period, value);
        let before = |p: int| pattern_sum(period as int, p, fewer as int, value);
        let last = |p: int| value(fewer * period + p);
        sums::lemma_sum_add(period, before, last);
        assert forall|p: int| 0 <= p < period implies #[trigger] by_pattern(p) == before(p) + last(
            p,
        ) by {
            let term = |h: int| value(h * (period as int) + p);
            assert(sums::sum_below(blocks, term) == sums::sum_below(fewer, term) + term(
                blocks - 1,
            ));
            assert((blocks - 1) * (period as int) == fewer * period);
        }
        sums::lemma_sum_equal(period, by_pattern, |p: int| before(p) + last(p));
    }
}

/// A sum over all anchors below a limit groups by pattern.
proof fn lemma_group(variables: nat, period: nat, limit: int, value: spec_fn(int) -> int)
    requires
        matrix::is_period(period),
        0 <= limit <= pow2(variables),
    ensures
        ({
            let split = evaluation::split_patterns(variables, period, limit);
            let size = pow2(split.bits) as int;
            sums::sum_below(limit as nat, value) == sums::sum_below(
                split.active(),
                |p: int| pattern_sum(size, p, split.count(p), value),
            )
        }),
{
    evaluation::lemma_split(variables, period, limit);
    let split = evaluation::split_patterns(variables, period, limit);
    let size = pow2(split.bits);
    let complete = split.complete as nat;
    let partial = split.partial as nat;
    assert(limit == complete * size + partial);
    sums::lemma_sum_split(complete * size, partial, value);
    lemma_blocks(complete, size, value);
    let whole = |p: int| pattern_sum(size as int, p, complete as int, value);
    let extra = |p: int|
        if 0 <= p < partial {
            value(complete * size + p)
        } else {
            0
        };
    let grouped = |p: int| pattern_sum(size as int, p, split.count(p), value);
    sums::lemma_sum_add(size, whole, extra);
    sums::lemma_sum_split(partial, (size - partial) as nat, extra);
    sums::lemma_sum_equal(partial, extra, |p: int| value(complete * size + p));
    sums::lemma_sum_zero((size - partial) as nat, |p: int| extra(partial + p));
    assert forall|p: int| 0 <= p < size implies #[trigger] grouped(p) == whole(p) + extra(p) by {
        let term = |h: int| value(h * (size as int) + p);
        if p < partial {
            assert(sums::sum_below(complete + 1, term) == sums::sum_below(complete, term) + term(
                complete as int,
            ));
        }
    }
    sums::lemma_sum_equal(size, grouped, |p: int| whole(p) + extra(p));
    // Patterns that do not occur add nothing.
    let active = split.active();
    if active < size {
        sums::lemma_sum_split(active, (size - active) as nat, grouped);
        let rest = |p: int| grouped(active + p);
        assert forall|p: int| 0 <= p < size - active implies #[trigger] rest(p) == 0 by {
            assert(split.count(active + p) == 0);
        }
        sums::lemma_sum_zero((size - active) as nat, rest);
    }
}

/// Where a table is longer than the domain, only its first part is reached.
proof fn lemma_table_index(variables: nat, period: nat, limit: int, pattern: int, h: int)
    requires
        matrix::is_period(period),
        0 <= limit <= pow2(variables),
        0 <= pattern < pow2(evaluation::split_patterns(variables, period, limit).bits),
        0 <= h < evaluation::split_patterns(variables, period, limit).count(pattern),
    ensures
        ({
            let size = pow2(evaluation::split_patterns(variables, period, limit).bits) as int;
            &&& (h * size + pattern) % (period as int) == pattern
            &&& 0 <= h * size + pattern < limit
        }),
{
    evaluation::lemma_split(variables, period, limit);
    evaluation::lemma_pattern_count(variables, period, limit, pattern);
    let split = evaluation::split_patterns(variables, period, limit);
    let size = pow2(split.bits) as int;
    let count = split.count(pattern);
    assert(0 <= h * size + pattern < limit) by (nonlinear_arith)
        requires
            0 <= h < count,
            (count - 1) * size + pattern < limit,
            0 <= pattern,
            0 < size,
    ;
    let table_bits = choose|bits: nat|
        bits <= problem::MAX_PERIOD_BITS && period == #[trigger] pow2(bits);
    if table_bits > 0 {
        lemma_pow2_strictly_increases((table_bits - 1) as nat, table_bits);
    }
    powers::lemma_padded_unique(period, table_bits);
    if split.bits == table_bits {
        assert((h * size + pattern) % size == pattern) by (nonlinear_arith)
            requires
                0 <= pattern < size,
        ;
    } else {
        // The whole domain is one period.
        assert(split.bits == variables);
        lemma2_to64();
        assert(count <= 1);
        assert(h == 0);
        assert(0 * size + pattern == pattern) by (nonlinear_arith);
        assert(pattern % (period as int) == pattern) by (nonlinear_arith)
            requires
                0 <= pattern < period,
        ;
    }
}

/// The weight of an anchor factors into its high and its low part.
proof fn lemma_anchor_weight(point: Seq<int>, bits: nat, h: int, pattern: int)
    requires
        bits <= point.len(),
        0 <= h,
        0 <= pattern < pow2(bits),
    ensures
        mle_laws::weight(point, h * pow2(bits) + pattern) == mle_laws::weight(
            evaluation::high_part(point, bits),
            h,
        ) * mle_laws::weight(evaluation::low_part(point, bits), pattern),
{
    let high = evaluation::high_part(point, bits);
    let low = evaluation::low_part(point, bits);
    assert(high + low =~= point);
    mle_laws::lemma_weight_split(high, low, h, pattern);
}

proof fn lemma_scale_right(count: nat, factor: int, term: spec_fn(int) -> int)
    ensures
        sums::sum_below(count, |i: int| term(i) * factor) == sums::sum_below(count, term) * factor,
{
    sums::lemma_sum_scale(count, factor, term);
    assert forall|i: int| #[trigger] term(i) * factor == factor * term(i) by {
        assert(term(i) * factor == factor * term(i)) by (nonlinear_arith);
    }
    sums::lemma_sum_equal(count, |i: int| term(i) * factor, |i: int| factor * term(i));
    assert(factor * sums::sum_below(count, term) == sums::sum_below(count, term) * factor)
        by (nonlinear_arith);
}

/// The evaluated patterns of a right-hand side add up to the grouped scan.
proof fn lemma_rhs_terms(dimension: nat, table: Seq<i64>, row: Seq<int>, count: nat)
    requires
        matrix::is_period(table.len()),
        0 < dimension <= pow2(row.len()),
        count <= evaluation::split_patterns(row.len(), table.len(), dimension as int).active(),
    ensures
        ({
            let split = evaluation::split_patterns(row.len(), table.len(), dimension as int);
            let size = pow2(split.bits) as int;
            evaluation::rhs_terms(mle_laws::integers(), dimension, table, row, count)
                == sums::sum_below(
                count,
                |p: int|
                    pattern_sum(
                        size,
                        p,
                        split.count(p),
                        |a: int|
                            table[a % table.len() as int] as int * mle_laws::weight(row, a),
                    ),
            )
        }),
    decreases count,
{
    if count > 0 {
        let ops = mle_laws::integers();
        let variables = row.len();
        let period = table.len();
        let pattern = count - 1;
        let split = evaluation::split_patterns(variables, period, dimension as int);
        let size = pow2(split.bits) as int;
        let occurrences = split.count(pattern);
        let high = evaluation::high_part(row, split.bits);
        let low = evaluation::low_part(row, split.bits);
        lemma_rhs_terms(dimension, table, row, pattern as nat);
        evaluation::lemma_split(variables, period, dimension as int);
        evaluation::lemma_pattern_count(variables, period, dimension as int, pattern);
        let weights = evaluation::period_weights(ops, split, high);
        mle_laws::index_sums_are_weight_sums(high, split.complete);
        if split.partial != 0 {
            let high_size = pow2(high.len()) as int;
            assert(split.complete < high_size) by (nonlinear_arith)
                requires
                    dimension == split.complete * size + split.partial,
                    0 < split.partial,
                    dimension <= high_size * size,
                    0 < size,
            ;
            mle_laws::index_sums_are_weight_sums(high, split.complete + 1);
        }
        let total = if pattern < split.partial {
            weights.0 + weights.1
        } else {
            weights.0
        };
        let high_weight = |h: int| mle_laws::weight(high, 0 + h);
        assert(total == sums::sum_below(occurrences as nat, high_weight));
        let low_weight = mle_laws::weight(low, pattern);
        let mantissa = table[pattern] as int;
        let value = |a: int| table[a % table.len() as int] as int * mle_laws::weight(row, a);
        let term = |h: int| value(h * size + pattern);
        let factor = low_weight * mantissa;
        assert forall|h: int| 0 <= h < occurrences implies #[trigger] term(h) == high_weight(h)
            * factor by {
            lemma_table_index(variables, period, dimension as int, pattern, h);
            lemma_anchor_weight(row, split.bits, h, pattern);
            let w = mle_laws::weight(high, h);
            assert(mantissa * (w * low_weight) == w * (low_weight * mantissa)) by (nonlinear_arith);
        }
        sums::lemma_sum_equal(occurrences as nat, term, |h: int| high_weight(h) * factor);
        lemma_scale_right(occurrences as nat, factor, high_weight);
        assert((low_weight * total) * mantissa == total * (low_weight * mantissa))
            by (nonlinear_arith);
    }
}

/// Over the integers, a right-hand-side evaluation is the complete scan.
pub proof fn rhs_evaluation_is_the_complete_scan(rhs: RhsModel, row: Seq<int>)
    requires
        rhs.wf(),
        row.len() == powers::ceil_log2(rhs.dimension()),
    ensures
        evaluation::rhs_value(mle_laws::integers(), rhs, row) == rhs_scan(rhs, row),
{
    let dimension = rhs.dimension();
    powers::lemma_padded(dimension);
    let scan = |i: int| rhs.mantissa(i) * mle_laws::weight(row, i);
    match rhs {
        RhsModel::Constant { value, .. } => {
            mle_laws::index_sums_are_weight_sums(row, dimension as int);
            let mantissa = value.mantissa as int;
            let weight = |i: int| mle_laws::weight(row, 0 + i);
            sums::lemma_sum_scale(dimension, mantissa, weight);
            sums::lemma_sum_equal(dimension, scan, |i: int| mantissa * weight(i));
        },
        RhsModel::Periodic { table, .. } => {
            let split = evaluation::split_patterns(row.len(), table.len(), dimension as int);
            let value = |a: int| table[a % table.len() as int] as int * mle_laws::weight(row, a);
            lemma_rhs_terms(dimension, table, row, split.active());
            lemma_group(row.len(), table.len(), dimension as int, value);
            sums::lemma_sum_equal(dimension, scan, value);
        },
    }
}

/// What one edge diagonal adds to the product of a row and a column function.
spec fn edge_row_part(
    edge: EdgeModel,
    dimension: nat,
    row: int,
    value: spec_fn(int) -> int,
) -> int {
    (if edge.offset <= row {
        edge.value(row - edge.offset) * (value(row - edge.offset) - value(row))
    } else {
        0
    }) + (if row + edge.offset < dimension {
        edge.value(row) * (value(row + edge.offset) - value(row))
    } else {
        0
    })
}

proof fn lemma_edge_row(
    matrix: MatrixModel,
    k: int,
    row: int,
    value: spec_fn(int) -> int,
)
    requires
        matrix.wf(),
        !(matrix is RowSparse),
        0 <= k < matrix.edges().len(),
        0 <= row < matrix.dimension(),
    ensures
        matrix.edges()[k].incident(matrix.dimension(), row) * value(row) - sums::sum_below(
            matrix.dimension(),
            |column: int|
                matrix_laws::edge_weight(matrix.edges()[k], row, column) * value(column),
        ) == edge_row_part(matrix.edges()[k], matrix.dimension(), row, value),
{
    let dimension = matrix.dimension();
    let edge = matrix.edges()[k];
    let offset = edge.offset as int;
    let lower = row - offset;
    let upper = row + offset;
    let down_size = problem::magnitude(edge.value(lower)) as int;
    let up_size = problem::magnitude(edge.value(row)) as int;
    let down = |column: int|
        if column == lower {
            down_size * value(lower)
        } else {
            0
        };
    let up = |column: int|
        if column == upper {
            up_size * value(upper)
        } else {
            0
        };
    let weighted = |column: int|
        matrix_laws::edge_weight(matrix.edges()[k], row, column) * value(column);
    assert forall|column: int| 0 <= column < dimension implies #[trigger] weighted(column) == down(
        column,
    ) + up(column) by {
        assert(0 * value(column) == 0) by (nonlinear_arith);
    }
    sums::lemma_sum_equal(dimension, weighted, |column: int| down(column) + up(column));
    sums::lemma_sum_add(dimension, down, up);
    sums::lemma_sum_indicator(dimension, lower, down_size * value(lower));
    sums::lemma_sum_indicator(dimension, upper, up_size * value(upper));
    let table = edge.table;
    if offset <= row {
        assert(table[lower % table.len() as int] < 0);
        let t = edge.value(lower);
        let v = value(lower);
        let w = value(row);
        assert((-t) * w - (-t) * v == t * (v - w)) by (nonlinear_arith);
    }
    assert(table[row % table.len() as int] < 0);
    let t = edge.value(row);
    let v = value(upper);
    let w = value(row);
    assert((-t) * w - (-t) * v == t * (v - w)) by (nonlinear_arith);
    let first = if offset <= row {
        down_size
    } else {
        0
    };
    let second = if upper < dimension {
        up_size
    } else {
        0
    };
    assert((first + second) * w == first * w + second * w) by (nonlinear_arith);
    assert(0 * w == 0) by (nonlinear_arith);
}

/// A row of a symmetric family times a function of the column.
proof fn lemma_symmetric_row(matrix: MatrixModel, row: int, value: spec_fn(int) -> int)
    requires
        matrix.wf(),
        !(matrix is RowSparse),
        0 <= row < matrix.dimension(),
    ensures
        sums::sum_below(
            matrix.dimension(),
            |column: int| matrix.coefficient(row, column) * value(column),
        ) == matrix.margin() * value(row) + sums::sum_below(
            matrix.edges().len(),
            |k: int| edge_row_part(matrix.edges()[k], matrix.dimension(), row, value),
        ),
{
    let dimension = matrix.dimension();
    let edges = matrix.edges();
    let diagonal = matrix.coefficient(row, row);
    let own = |column: int|
        if column == row {
            diagonal * value(row)
        } else {
            0
        };
    let other = |column: int| matrix_laws::off_diagonal(matrix, row, column) * value(column);
    let whole = |column: int| matrix.coefficient(row, column) * value(column);
    assert forall|column: int| 0 <= column < dimension implies #[trigger] whole(column) == own(
        column,
    ) + other(column) by {
        assert(0 * value(column) == 0) by (nonlinear_arith);
    }
    sums::lemma_sum_equal(dimension, whole, |column: int| own(column) + other(column));
    sums::lemma_sum_add(dimension, own, other);
    sums::lemma_sum_indicator(dimension, row, diagonal * value(row));
    // The off-diagonal part, edge by edge.
    let weighted = |column: int, k: int|
        matrix_laws::edge_weight(matrix.edges()[k], row, column) * value(column);
    let by_column = |column: int| sums::sum_below(edges.len(), |k: int| weighted(column, k));
    let by_edge = |k: int| sums::sum_below(dimension, |column: int| weighted(column, k));
    assert forall|column: int| 0 <= column < dimension implies #[trigger] other(column)
        == -by_column(column) by {
        matrix_laws::lemma_off_diagonal_is_weight(matrix, row, column);
        let weight = |k: int| matrix_laws::edge_weight(matrix.edges()[k], row, column);
        lemma_scale_right(edges.len(), value(column), weight);
        sums::lemma_sum_equal(
            edges.len(),
            |k: int| weight(k) * value(column),
            |k: int| weighted(column, k),
        );
        let total = sums::sum_below(edges.len(), weight);
        assert((-total) * value(column) == -(total * value(column))) by (nonlinear_arith);
    }
    sums::lemma_sum_equal(dimension, other, |column: int| -by_column(column));
    sums::lemma_sum_negate(dimension, by_column);
    sums::lemma_sum_swap(dimension, edges.len(), weighted);
    // The diagonal part, edge by edge.
    let incident = |k: int| matrix.edges()[k].incident(matrix.dimension(), row);
    let total = sums::sum_below(edges.len(), incident);
    assert(diagonal == matrix.margin() + total);
    let margin = matrix.margin() as int;
    let at_row = value(row);
    assert((margin + total) * at_row == margin * at_row + total * at_row) by (nonlinear_arith);
    lemma_scale_right(edges.len(), at_row, incident);
    let scaled = |k: int| incident(k) * at_row;
    let negated = |k: int| -by_edge(k);
    sums::lemma_sum_negate(edges.len(), by_edge);
    sums::lemma_sum_add(edges.len(), scaled, negated);
    let part = |k: int| edge_row_part(matrix.edges()[k], matrix.dimension(), row, value);
    assert forall|k: int| 0 <= k < edges.len() implies #[trigger] part(k) == scaled(k) + negated(
        k,
    ) by {
        lemma_edge_row(matrix, k, row, value);
        sums::lemma_sum_equal(
            dimension,
            |column: int|
                matrix_laws::edge_weight(matrix.edges()[k], row, column) * value(column),
            |column: int| weighted(column, k),
        );
    }
    sums::lemma_sum_equal(edges.len(), part, |k: int| scaled(k) + negated(k));
}

/// The quadratic form of the edge that starts at an anchor.
pub open spec fn anchor_form(row: Seq<int>, column: Seq<int>, offset: int, anchor: int) -> int {
    weight_pair(row, column, anchor, anchor + offset) + weight_pair(
        row,
        column,
        anchor + offset,
        anchor,
    ) - weight_pair(row, column, anchor, anchor) - weight_pair(
        row,
        column,
        anchor + offset,
        anchor + offset,
    )
}

/// What one edge diagonal adds to a scan.
pub open spec fn edge_scan(
    edge: EdgeModel,
    dimension: nat,
    row: Seq<int>,
    column: Seq<int>,
) -> int {
    sums::sum_below(
        (dimension - edge.offset) as nat,
        |a: int| edge.value(a) * anchor_form(row, column, edge.offset as int, a),
    )
}

proof fn lemma_edge_scan(edge: EdgeModel, dimension: nat, row: Seq<int>, column: Seq<int>)
    requires
        0 < edge.offset < dimension,
    ensures
        sums::sum_below(
            dimension,
            |i: int|
                mle_laws::weight(row, i) * edge_row_part(
                    edge,
                    dimension,
                    i,
                    |j: int| mle_laws::weight(column, j),
                ),
        ) == edge_scan(edge, dimension, row, column),
{
    let offset = edge.offset as int;
    let count = (dimension - edge.offset) as nat;
    let value = |j: int| mle_laws::weight(column, j);
    let whole = |i: int|
        mle_laws::weight(row, i) * edge_row_part(
            edge,
            dimension,
            i,
            |j: int| mle_laws::weight(column, j),
        );
    let down = |i: int|
        if offset <= i {
            mle_laws::weight(row, i) * (edge.value(i - offset) * (value(i - offset) - value(i)))
        } else {
            0
        };
    let up = |i: int|
        if i + offset < dimension {
            mle_laws::weight(row, i) * (edge.value(i) * (value(i + offset) - value(i)))
        } else {
            0
        };
    assert forall|i: int| 0 <= i < dimension implies #[trigger] whole(i) == down(i) + up(i) by {
        let w = mle_laws::weight(row, i);
        let first = if offset <= i {
            edge.value(i - offset) * (value(i - offset) - value(i))
        } else {
            0
        };
        let second = if i + offset < dimension {
            edge.value(i) * (value(i + offset) - value(i))
        } else {
            0
        };
        assert(edge_row_part(edge, dimension, i, |j: int| mle_laws::weight(column, j)) == first
            + second);
        assert(w * (first + second) == w * first + w * second) by (nonlinear_arith);
        assert(w * 0 == 0) by (nonlinear_arith);
    }
    sums::lemma_sum_equal(dimension, whole, |i: int| down(i) + up(i));
    sums::lemma_sum_add(dimension, down, up);
    // Rows above an edge are its lower endpoints moved by the offset.
    let moved = |a: int|
        mle_laws::weight(row, a + offset) * (edge.value(a) * (value(a) - value(a + offset)));
    sums::lemma_sum_split(edge.offset, count, down);
    sums::lemma_sum_zero(edge.offset, down);
    sums::lemma_sum_equal(count, |a: int| down(edge.offset + a), moved);
    let direct = |a: int|
        mle_laws::weight(row, a) * (edge.value(a) * (value(a + offset) - value(a)));
    sums::lemma_sum_split(count, edge.offset, up);
    sums::lemma_sum_equal(count, up, direct);
    sums::lemma_sum_zero(edge.offset, |a: int| up(count + a));
    sums::lemma_sum_add(count, moved, direct);
    let form = |a: int| edge.value(a) * anchor_form(row, column, edge.offset as int, a);
    assert forall|a: int| 0 <= a < count implies #[trigger] form(a) == moved(a) + direct(a) by {
        let t = edge.value(a);
        let r0 = mle_laws::weight(row, a);
        let r1 = mle_laws::weight(row, a + offset);
        let c0 = mle_laws::weight(column, a);
        let c1 = mle_laws::weight(column, a + offset);
        lemma_form_algebra(t, r0, r1, c0, c1);
    }
    sums::lemma_sum_equal(count, form, |a: int| moved(a) + direct(a));
}

proof fn lemma_form_algebra(t: int, r0: int, r1: int, c0: int, c1: int)
    ensures
        t * (r0 * c1 + r1 * c0 - r0 * c0 - r1 * c1) == r1 * (t * (c0 - c1)) + r0 * (t * (c1 - c0)),
{
    assert(r1 * (t * (c0 - c1)) == t * (r1 * c0) - t * (r1 * c1)) by (nonlinear_arith);
    assert(r0 * (t * (c1 - c0)) == t * (r0 * c1) - t * (r0 * c0)) by (nonlinear_arith);
    assert(t * (r0 * c1 + r1 * c0 - r0 * c0 - r1 * c1) == t * (r0 * c1) + t * (r1 * c0) - t * (r0
        * c0) - t * (r1 * c1)) by (nonlinear_arith);
}

/// The scan of a symmetric family: the margin part and each edge diagonal.
proof fn lemma_symmetric_scan(matrix: MatrixModel, row: Seq<int>, column: Seq<int>)
    requires
        matrix.wf(),
        !(matrix is RowSparse),
    ensures
        matrix_scan(matrix, row, column) == matrix.margin() * sums::sum_below(
            matrix.dimension(),
            |i: int| weight_pair(row, column, i, i),
        ) + sums::sum_below(
            matrix.edges().len(),
            |k: int| edge_scan(matrix.edges()[k], matrix.dimension(), row, column),
        ),
{
    let dimension = matrix.dimension();
    let edges = matrix.edges();
    let margin = matrix.margin() as int;
    let value = |j: int| mle_laws::weight(column, j);
    let part = |i: int, k: int|
        mle_laws::weight(row, i) * edge_row_part(matrix.edges()[k], dimension, i, value);
    let by_row = |i: int| sums::sum_below(edges.len(), |k: int| part(i, k));
    let by_edge = |k: int| sums::sum_below(dimension, |i: int| part(i, k));
    let pair = |i: int| weight_pair(row, column, i, i);
    let scaled = |i: int| margin * pair(i);
    let scan = |i: int|
        sums::sum_below(
            matrix.dimension(),
            |j: int| matrix.coefficient(i, j) * weight_pair(row, column, i, j),
        );
    assert forall|i: int| 0 <= i < dimension implies #[trigger] scan(i) == scaled(i) + by_row(
        i,
    ) by {
        let w = mle_laws::weight(row, i);
        let inner = |j: int| matrix.coefficient(i, j) * value(j);
        let entry = |j: int| matrix.coefficient(i, j) * weight_pair(row, column, i, j);
        assert forall|j: int| 0 <= j < dimension implies #[trigger] entry(j) == w * inner(j) by {
            let c = matrix.coefficient(i, j);
            let v = value(j);
            assert(c * (w * v) == w * (c * v)) by (nonlinear_arith);
        }
        sums::lemma_sum_equal(dimension, entry, |j: int| w * inner(j));
        sums::lemma_sum_scale(dimension, w, inner);
        lemma_symmetric_row(matrix, i, value);
        let edge_part = |k: int| edge_row_part(matrix.edges()[k], matrix.dimension(), i, value);
        sums::lemma_sum_scale(edges.len(), w, edge_part);
        sums::lemma_sum_equal(edges.len(), |k: int| w * edge_part(k), |k: int| part(i, k));
        let total = sums::sum_below(edges.len(), edge_part);
        let v = value(i);
        assert(w * (margin * v + total) == margin * (w * v) + w * total) by (nonlinear_arith);
    }
    sums::lemma_sum_equal(dimension, scan, |i: int| scaled(i) + by_row(i));
    sums::lemma_sum_add(dimension, scaled, by_row);
    sums::lemma_sum_scale(dimension, margin, pair);
    sums::lemma_sum_swap(dimension, edges.len(), part);
    let edge_total = |k: int| edge_scan(matrix.edges()[k], matrix.dimension(), row, column);
    assert forall|k: int| 0 <= k < edges.len() implies #[trigger] by_edge(k) == edge_total(k) by {
        assert(0 < edges[k].offset < dimension);
        lemma_edge_scan(edges[k], dimension, row, column);
        sums::lemma_sum_equal(
            dimension,
            |i: int| part(i, k),
            |i: int|
                mle_laws::weight(row, i) * edge_row_part(
                    edges[k],
                    dimension,
                    i,
                    |j: int| mle_laws::weight(column, j),
                ),
        );
    }
    sums::lemma_sum_equal(edges.len(), by_edge, edge_total);
}

/// A displaced pair sum over one pattern factors into low and high parts.
proof fn lemma_pair_factors(
    left: Seq<int>,
    right: Seq<int>,
    bits: nat,
    left_pattern: int,
    right_pattern: int,
    left_shift: int,
    right_shift: int,
    count: nat,
    high: int,
)
    requires
        bits <= left.len(),
        bits <= right.len(),
        0 <= left_pattern < pow2(bits),
        0 <= right_pattern < pow2(bits),
        0 <= left_shift,
        0 <= right_shift,
        high == sums::sum_below(
            count,
            |h: int|
                mle_laws::weight(evaluation::high_part(left, bits), h + left_shift)
                    * mle_laws::weight(evaluation::high_part(right, bits), h + right_shift),
        ),
    ensures
        sums::sum_below(
            count,
            |h: int|
                weight_pair(
                    left,
                    right,
                    (h + left_shift) * pow2(bits) + left_pattern,
                    (h + right_shift) * pow2(bits) + right_pattern,
                ),
        ) == (mle_laws::weight(evaluation::low_part(left, bits), left_pattern) * mle_laws::weight(
            evaluation::low_part(right, bits),
            right_pattern,
        )) * high,
{
    let factor = mle_laws::weight(evaluation::low_part(left, bits), left_pattern)
        * mle_laws::weight(evaluation::low_part(right, bits), right_pattern);
    let inner = |h: int|
        mle_laws::weight(evaluation::high_part(left, bits), h + left_shift) * mle_laws::weight(
            evaluation::high_part(right, bits),
            h + right_shift,
        );
    let outer = |h: int|
        weight_pair(
            left,
            right,
            (h + left_shift) * pow2(bits) + left_pattern,
            (h + right_shift) * pow2(bits) + right_pattern,
        );
    assert forall|h: int| 0 <= h < count implies #[trigger] outer(h) == factor * inner(h) by {
        lemma_anchor_weight(left, bits, h + left_shift, left_pattern);
        lemma_anchor_weight(right, bits, h + right_shift, right_pattern);
        let a = mle_laws::weight(evaluation::high_part(left, bits), h + left_shift);
        let b = mle_laws::weight(evaluation::low_part(left, bits), left_pattern);
        let c = mle_laws::weight(evaluation::high_part(right, bits), h + right_shift);
        let d = mle_laws::weight(evaluation::low_part(right, bits), right_pattern);
        assert((a * b) * (c * d) == (b * d) * (a * c)) by (nonlinear_arith);
    }
    sums::lemma_sum_equal(count, outer, |h: int| factor * inner(h));
    sums::lemma_sum_scale(count, factor, inner);
}

/// The high factors of an edge pattern over the integers.
proof fn lemma_edge_factors(
    row_high: Seq<int>,
    column_high: Seq<int>,
    count: int,
    shift: int,
    carry: int,
)
    requires
        row_high.len() == column_high.len(),
        0 < count,
        0 <= shift < pow2(row_high.len()),
        0 <= carry <= 1,
        count + shift + carry <= pow2(row_high.len()),
    ensures
        ({
            let high = evaluation::edge_factors(
                mle_laws::integers(),
                row_high,
                column_high,
                count,
                shift,
                carry,
            );
            let total = shift + carry;
            &&& high.equal == sums::sum_below(
                count as nat,
                |h: int| mle_laws::weight(row_high, h + 0) * mle_laws::weight(column_high, h + 0),
            )
            &&& high.forward == sums::sum_below(
                count as nat,
                |h: int|
                    mle_laws::weight(row_high, h + 0) * mle_laws::weight(column_high, h + total),
            )
            &&& high.reverse == sums::sum_below(
                count as nat,
                |h: int|
                    mle_laws::weight(row_high, h + total) * mle_laws::weight(column_high, h + 0),
            )
            &&& high.end == sums::sum_below(
                count as nat,
                |h: int|
                    mle_laws::weight(row_high, h + total) * mle_laws::weight(
                        column_high,
                        h + total,
                    ),
            )
        }),
{
    let total = shift + carry;
    let pair = |i: int| mle_laws::weight(row_high, i) * mle_laws::weight(column_high, i);
    mle_laws::equal_sums_are_weight_pairs(row_high, column_high, count);
    sums::lemma_sum_equal(
        count as nat,
        pair,
        |h: int| mle_laws::weight(row_high, h + 0) * mle_laws::weight(column_high, h + 0),
    );
    if total > 0 {
        mle_laws::shifted_sums_are_displaced_pairs(row_high, column_high, count, shift, carry);
        mle_laws::shifted_sums_are_displaced_pairs(column_high, row_high, count, shift, carry);
        mle_laws::equal_sums_are_weight_pairs(row_high, column_high, count + total);
        mle_laws::equal_sums_are_weight_pairs(row_high, column_high, total);
        sums::lemma_sum_split(total as nat, count as nat, pair);
        sums::lemma_sum_equal(
            count as nat,
            |h: int| pair(total as nat + h),
            |h: int| mle_laws::weight(row_high, h + total) * mle_laws::weight(column_high, h + total),
        );
        sums::lemma_sum_equal(
            count as nat,
            |i: int|
                mle_laws::weight(row_high, i) * mle_laws::weight(column_high, i + shift + carry),
            |h: int| mle_laws::weight(row_high, h + 0) * mle_laws::weight(column_high, h + total),
        );
        let swapped = |i: int|
            mle_laws::weight(column_high, i) * mle_laws::weight(row_high, i + shift + carry);
        let reverse = |h: int|
            mle_laws::weight(row_high, h + total) * mle_laws::weight(column_high, h + 0);
        assert forall|h: int| 0 <= h < count implies #[trigger] swapped(h) == reverse(h) by {
            let a = mle_laws::weight(column_high, h);
            let b = mle_laws::weight(row_high, h + total);
            assert(a * b == b * a) by (nonlinear_arith);
        }
        sums::lemma_sum_equal(count as nat, swapped, reverse);
    }
}

/// The form of an edge pattern adds up the forms of its anchors.
proof fn lemma_edge_pattern_form(
    period: nat,
    dimension: int,
    offset: int,
    row: Seq<int>,
    column: Seq<int>,
    pattern: int,
)
    requires
        matrix::is_period(period),
        row.len() == column.len(),
        0 < offset < dimension <= pow2(row.len()),
        0 <= pattern < evaluation::split_patterns(row.len(), period, dimension - offset).active(),
    ensures
        ({
            let split = evaluation::split_patterns(row.len(), period, dimension - offset);
            evaluation::edge_pattern_form(
                mle_laws::integers(),
                split,
                offset,
                row,
                column,
                pattern,
            ) == pattern_sum(
                pow2(split.bits) as int,
                pattern,
                split.count(pattern),
                |a: int| anchor_form(row, column, offset, a),
            )
        }),
{
    let variables = row.len();
    let split = evaluation::split_patterns(variables, period, dimension - offset);
    let bits = split.bits;
    let size = pow2(bits) as int;
    let count = split.count(pattern);
    let moved = evaluation::displace(bits, pattern, offset);
    let total = moved.shift + moved.carry;
    evaluation::lemma_split(variables, period, dimension - offset);
    evaluation::lemma_pattern_count(variables, period, dimension - offset, pattern);
    evaluation::lemma_displace(variables, period, dimension, offset, pattern);
    let row_high = evaluation::high_part(row, bits);
    let column_high = evaluation::high_part(column, bits);
    lemma_edge_factors(row_high, column_high, count, moved.shift, moved.carry);
    let high = evaluation::edge_factors(
        mle_laws::integers(),
        row_high,
        column_high,
        count,
        moved.shift,
        moved.carry,
    );
    let n = count as nat;
    let forward = |h: int|
        weight_pair(row, column, (h + 0) * size + pattern, (h + total) * size + moved.next);
    let reverse = |h: int|
        weight_pair(row, column, (h + total) * size + moved.next, (h + 0) * size + pattern);
    let start = |h: int|
        weight_pair(row, column, (h + 0) * size + pattern, (h + 0) * size + pattern);
    let end = |h: int|
        weight_pair(
            row,
            column,
            (h + total) * size + moved.next,
            (h + total) * size + moved.next,
        );
    let row_low = evaluation::low_part(row, bits);
    let column_low = evaluation::low_part(column, bits);
    assert(sums::sum_below(n, forward) == (mle_laws::weight(row_low, pattern) * mle_laws::weight(
        column_low,
        moved.next,
    )) * high.forward) by {
        lemma_pair_factors(row, column, bits, pattern, moved.next, 0, total, n, high.forward);
        sums::lemma_sum_equal(
            n,
            forward,
            |h: int|
                weight_pair(
                    row,
                    column,
                    (h + 0) * pow2(bits) + pattern,
                    (h + total) * pow2(bits) + moved.next,
                ),
        );
    }
    assert(sums::sum_below(n, reverse) == (mle_laws::weight(row_low, moved.next)
        * mle_laws::weight(column_low, pattern)) * high.reverse) by {
        lemma_pair_factors(row, column, bits, moved.next, pattern, total, 0, n, high.reverse);
        sums::lemma_sum_equal(
            n,
            reverse,
            |h: int|
                weight_pair(
                    row,
                    column,
                    (h + total) * pow2(bits) + moved.next,
                    (h + 0) * pow2(bits) + pattern,
                ),
        );
    }
    assert(sums::sum_below(n, start) == (mle_laws::weight(row_low, pattern) * mle_laws::weight(
        column_low,
        pattern,
    )) * high.equal) by {
        lemma_pair_factors(row, column, bits, pattern, pattern, 0, 0, n, high.equal);
        sums::lemma_sum_equal(
            n,
            start,
            |h: int|
                weight_pair(
                    row,
                    column,
                    (h + 0) * pow2(bits) + pattern,
                    (h + 0) * pow2(bits) + pattern,
                ),
        );
    }
    assert(sums::sum_below(n, end) == (mle_laws::weight(row_low, moved.next) * mle_laws::weight(
        column_low,
        moved.next,
    )) * high.end) by {
        lemma_pair_factors(row, column, bits, moved.next, moved.next, total, total, n, high.end);
        sums::lemma_sum_equal(
            n,
            end,
            |h: int|
                weight_pair(
                    row,
                    column,
                    (h + total) * pow2(bits) + moved.next,
                    (h + total) * pow2(bits) + moved.next,
                ),
        );
    }
    let form = |h: int| anchor_form(row, column, offset, h * size + pattern);
    let plus = |h: int| forward(h) + reverse(h);
    let minus = |h: int| start(h) + end(h);
    let negative = |h: int| -minus(h);
    assert forall|h: int| 0 <= h < n implies #[trigger] form(h) == plus(h) + negative(h) by {
        assert((h + total) * size + moved.next == h * size + pattern + offset) by (nonlinear_arith)
            requires
                pattern + offset == total * size + moved.next,
        ;
        assert(h + 0 == h);
    }
    sums::lemma_sum_add(n, forward, reverse);
    sums::lemma_sum_equal(n, plus, |h: int| forward(h) + reverse(h));
    sums::lemma_sum_add(n, start, end);
    sums::lemma_sum_equal(n, minus, |h: int| start(h) + end(h));
    sums::lemma_sum_negate(n, minus);
    sums::lemma_sum_add(n, plus, negative);
    sums::lemma_sum_equal(n, form, |h: int| plus(h) + negative(h));
    let value = |a: int| anchor_form(row, column, offset, a);
    sums::lemma_sum_equal(n, form, |h: int| value(h * size + pattern));
    assert(evaluation::edge_pattern_form(
        mle_laws::integers(),
        split,
        offset,
        row,
        column,
        pattern,
    ) == evaluation::edge_form(
        mle_laws::integers(),
        mle_laws::weight(row_low, pattern),
        mle_laws::weight(column_low, pattern),
        mle_laws::weight(row_low, moved.next),
        mle_laws::weight(column_low, moved.next),
        high,
    ));
}

/// The evaluated patterns of an edge diagonal add up to its scan, pattern by
/// pattern.
proof fn lemma_edge_terms(
    dimension: nat,
    edge: EdgeModel,
    row: Seq<int>,
    column: Seq<int>,
    start: int,
    count: nat,
)
    requires
        matrix::is_period(edge.table.len()),
        row.len() == column.len(),
        0 < edge.offset < dimension <= pow2(row.len()),
        count <= evaluation::split_patterns(
            row.len(),
            edge.table.len(),
            dimension - edge.offset,
        ).active(),
    ensures
        ({
            let split = evaluation::split_patterns(
                row.len(),
                edge.table.len(),
                dimension - edge.offset,
            );
            let size = pow2(split.bits) as int;
            evaluation::edge_terms(
                mle_laws::integers(),
                dimension,
                edge,
                row,
                column,
                start,
                count,
            ) == start + sums::sum_below(
                count,
                |p: int|
                    pattern_sum(
                        size,
                        p,
                        split.count(p),
                        |a: int| edge.value(a) * anchor_form(row, column, edge.offset as int, a),
                    ),
            )
        }),
    decreases count,
{
    if count > 0 {
        let pattern = count - 1;
        let limit = dimension - edge.offset;
        let offset = edge.offset as int;
        let split = evaluation::split_patterns(row.len(), edge.table.len(), limit);
        let size = pow2(split.bits) as int;
        let occurrences = split.count(pattern) as nat;
        lemma_edge_terms(dimension, edge, row, column, start, pattern as nat);
        evaluation::lemma_split(row.len(), edge.table.len(), limit);
        evaluation::lemma_pattern_count(row.len(), edge.table.len(), limit, pattern);
        lemma_edge_pattern_form(
            edge.table.len(),
            dimension as int,
            offset,
            row,
            column,
            pattern,
        );
        let mantissa = edge.table[pattern] as int;
        let form = |h: int| anchor_form(row, column, offset, h * size + pattern);
        let value = |a: int| edge.value(a) * anchor_form(row, column, edge.offset as int, a);
        let term = |h: int| value(h * size + pattern);
        assert forall|h: int| 0 <= h < occurrences implies #[trigger] term(h) == mantissa * form(
            h,
        ) by {
            lemma_table_index(row.len(), edge.table.len(), limit, pattern, h);
        }
        sums::lemma_sum_equal(occurrences, term, |h: int| mantissa * form(h));
        sums::lemma_sum_scale(occurrences, mantissa, form);
        let plain = |a: int| anchor_form(row, column, offset, a);
        sums::lemma_sum_equal(occurrences, form, |h: int| plain(h * size + pattern));
    }
}

proof fn lemma_edge_evaluation(
    dimension: nat,
    edge: EdgeModel,
    row: Seq<int>,
    column: Seq<int>,
    start: int,
)
    requires
        matrix::is_period(edge.table.len()),
        row.len() == column.len(),
        0 < edge.offset < dimension <= pow2(row.len()),
    ensures
        evaluation::edge_terms(
            mle_laws::integers(),
            dimension,
            edge,
            row,
            column,
            start,
            evaluation::split_patterns(
                row.len(),
                edge.table.len(),
                dimension - edge.offset,
            ).active(),
        ) == start + edge_scan(edge, dimension, row, column),
{
    let limit = dimension - edge.offset;
    let split = evaluation::split_patterns(row.len(), edge.table.len(), limit);
    lemma_edge_terms(dimension, edge, row, column, start, split.active());
    lemma_group(
        row.len(),
        edge.table.len(),
        limit,
        |a: int| edge.value(a) * anchor_form(row, column, edge.offset as int, a),
    );
}

proof fn lemma_laplacian_terms(
    matrix: MatrixModel,
    row: Seq<int>,
    column: Seq<int>,
    count: nat,
)
    requires
        matrix.wf(),
        matrix is DiaLaplacian,
        row.len() == column.len(),
        matrix.dimension() <= pow2(row.len()),
        count <= matrix.edges().len(),
    ensures
        evaluation::laplacian_terms(
            mle_laws::integers(),
            matrix.dimension(),
            matrix.margin(),
            matrix.edges(),
            row,
            column,
            count,
        ) == matrix.margin() * sums::sum_below(
            matrix.dimension(),
            |i: int| weight_pair(row, column, i, i),
        ) + sums::sum_below(
            count,
            |k: int| edge_scan(matrix.edges()[k], matrix.dimension(), row, column),
        ),
    decreases count,
{
    if count == 0 {
        mle_laws::equal_sums_are_weight_pairs(row, column, matrix.dimension() as int);
        sums::lemma_sum_equal(
            matrix.dimension(),
            |i: int| mle_laws::weight(row, i) * mle_laws::weight(column, i),
            |i: int| weight_pair(row, column, i, i),
        );
    } else {
        lemma_laplacian_terms(matrix, row, column, (count - 1) as nat);
        let edge = matrix.edges()[count - 1];
        lemma_edge_evaluation(
            matrix.dimension(),
            edge,
            row,
            column,
            evaluation::laplacian_terms(
                mle_laws::integers(),
                matrix.dimension(),
                matrix.margin(),
                matrix.edges(),
                row,
                column,
                (count - 1) as nat,
            ),
        );
    }
}

/// A tridiagonal pattern form is the edge pattern form at offset one.
proof fn lemma_tridiagonal_form(
    period: nat,
    dimension: int,
    row: Seq<int>,
    column: Seq<int>,
    pattern: int,
)
    requires
        matrix::is_period(period),
        row.len() == column.len(),
        1 < dimension <= pow2(row.len()),
        0 <= pattern < evaluation::split_patterns(row.len(), period, dimension - 1).active(),
    ensures
        ({
            let split = evaluation::split_patterns(row.len(), period, dimension - 1);
            evaluation::tridiagonal_form(mle_laws::integers(), split, row, column, pattern)
                == evaluation::edge_pattern_form(
                mle_laws::integers(),
                split,
                1,
                row,
                column,
                pattern,
            )
        }),
{
    let variables = row.len();
    let split = evaluation::split_patterns(variables, period, dimension - 1);
    let bits = split.bits;
    let size = pow2(bits) as int;
    let count = split.count(pattern);
    let moved = evaluation::displace(bits, pattern, 1);
    evaluation::lemma_split(variables, period, dimension - 1);
    evaluation::lemma_pattern_count(variables, period, dimension - 1, pattern);
    evaluation::lemma_displace(variables, period, dimension, 1, pattern);
    let row_high = evaluation::high_part(row, bits);
    let column_high = evaluation::high_part(column, bits);
    if size == 1 {
        assert(1int % 1int == 0 && 1int / 1int == 1);
        assert(pattern == 0);
        assert(0int % 1int == 0 && 0int / 1int == 0);
        assert(moved.shift == 1 && moved.carry == 0 && moved.next == 0);
        assert(2int % 1 == 0);
    } else {
        assert(1int % size == 1 && 1int / size == 0) by (nonlinear_arith)
            requires
                1 < size,
        ;
        if pattern + 1 < size {
            assert((pattern + 1) % size == pattern + 1 && (pattern + 1) / size == 0)
                by (nonlinear_arith)
                requires
                    0 <= pattern,
                    pattern + 1 < size,
            ;
        } else {
            assert(pattern + 1 == size);
            assert(size % size == 0 && size / size == 1) by (nonlinear_arith)
                requires
                    0 < size,
            ;
        }
    }
    if pattern + 1 >= size {
        assert(moved.shift + moved.carry == 1 && moved.next == 0);
        lemma_edge_factors(row_high, column_high, count, moved.shift, moved.carry);
        lemma_tridiagonal_factors(row_high, column_high, count, moved.shift, moved.carry);
    }
}

/// Where a pattern wraps, a tridiagonal edge is displaced by one high index.
proof fn lemma_tridiagonal_factors(
    row_high: Seq<int>,
    column_high: Seq<int>,
    count: int,
    shift: int,
    carry: int,
)
    requires
        row_high.len() == column_high.len(),
        0 < count,
        0 <= shift < pow2(row_high.len()),
        0 <= carry <= 1,
        shift + carry == 1,
        count + 1 <= pow2(row_high.len()),
    ensures
        evaluation::tridiagonal_factors(
            mle_laws::integers(),
            row_high,
            column_high,
            count,
            true,
        ) == evaluation::edge_factors(
            mle_laws::integers(),
            row_high,
            column_high,
            count,
            shift,
            carry,
        ),
{
    mle_laws::shifted_sums_are_displaced_pairs(row_high, column_high, count, 0, 1);
    mle_laws::shifted_sums_are_displaced_pairs(column_high, row_high, count, 0, 1);
    mle_laws::shifted_sums_are_displaced_pairs(row_high, column_high, count, shift, carry);
    mle_laws::shifted_sums_are_displaced_pairs(column_high, row_high, count, shift, carry);
    sums::lemma_sum_equal(
        count as nat,
        |i: int| mle_laws::weight(row_high, i) * mle_laws::weight(column_high, i + 0 + 1),
        |i: int| mle_laws::weight(row_high, i) * mle_laws::weight(column_high, i + shift + carry),
    );
    sums::lemma_sum_equal(
        count as nat,
        |i: int| mle_laws::weight(column_high, i) * mle_laws::weight(row_high, i + 0 + 1),
        |i: int| mle_laws::weight(column_high, i) * mle_laws::weight(row_high, i + shift + carry),
    );
    mle_laws::equal_sums_are_weight_pairs(row_high, column_high, 1);
    reveal_with_fuel(sums::sum_below, 2);
}

proof fn lemma_tridiagonal_terms(
    matrix: MatrixModel,
    row: Seq<int>,
    column: Seq<int>,
    count: nat,
)
    requires
        matrix.wf(),
        matrix is Tridiagonal,
        row.len() == column.len(),
        matrix.dimension() <= pow2(row.len()),
        count <= evaluation::split_patterns(
            row.len(),
            matrix.edges()[0].table.len(),
            matrix.dimension() - 1,
        ).active(),
    ensures
        evaluation::tridiagonal_terms(
            mle_laws::integers(),
            matrix.dimension(),
            matrix.margin(),
            matrix.edges()[0].table,
            row,
            column,
            count,
        ) == evaluation::edge_terms(
            mle_laws::integers(),
            matrix.dimension(),
            matrix.edges()[0],
            row,
            column,
            matrix.margin() * sums::sum_below(
                matrix.dimension(),
                |i: int| weight_pair(row, column, i, i),
            ),
            count,
        ),
    decreases count,
{
    if count == 0 {
        mle_laws::equal_sums_are_weight_pairs(row, column, matrix.dimension() as int);
        sums::lemma_sum_equal(
            matrix.dimension(),
            |i: int| mle_laws::weight(row, i) * mle_laws::weight(column, i),
            |i: int| weight_pair(row, column, i, i),
        );
    } else {
        lemma_tridiagonal_terms(matrix, row, column, (count - 1) as nat);
        lemma_tridiagonal_form(
            matrix.edges()[0].table.len(),
            matrix.dimension() as int,
            row,
            column,
            count - 1,
        );
    }
}

/// Over the integers, a symmetric family's evaluation is the complete scan.
proof fn lemma_symmetric_evaluation(matrix: MatrixModel, row: Seq<int>, column: Seq<int>)
    requires
        matrix.wf(),
        !(matrix is RowSparse),
        row.len() == powers::ceil_log2(matrix.dimension()),
        column.len() == row.len(),
    ensures
        evaluation::matrix_value(mle_laws::integers(), matrix, row, column) == matrix_scan(
            matrix,
            row,
            column,
        ),
{
    let dimension = matrix.dimension();
    powers::lemma_padded(dimension);
    lemma_symmetric_scan(matrix, row, column);
    match matrix {
        MatrixModel::Tridiagonal { table, .. } => {
            let edge = matrix.edges()[0];
            let split = evaluation::split_patterns(row.len(), table.len(), dimension - 1);
            lemma_tridiagonal_terms(matrix, row, column, split.active());
            let start = matrix.margin() * sums::sum_below(
                dimension,
                |i: int| weight_pair(row, column, i, i),
            );
            sums::lemma_sum_equal(
                dimension,
                |i: int| weight_pair(row, column, i, i),
                |i: int| weight_pair(row, column, i, i),
            );
            lemma_edge_evaluation(dimension, edge, row, column, start);
            reveal_with_fuel(sums::sum_below, 2);
        },
        MatrixModel::DiaLaplacian { edges, .. } => {
            lemma_laplacian_terms(matrix, row, column, edges.len());
        },
        _ => {},
    }
}

/// One entry of a row at an offset from the diagonal, where its column lies
/// inside the matrix.
pub open spec fn entry_hit(
    dimension: nat,
    row: Seq<int>,
    column: Seq<int>,
    i: int,
    offset: int,
    mantissa: int,
) -> int {
    if 0 <= i + offset < dimension {
        mantissa * weight_pair(row, column, i, i + offset)
    } else {
        0
    }
}

/// The form of a displaced pattern adds up its pairs.
proof fn lemma_entry_form(
    period: nat,
    dimension: int,
    distance: int,
    anchors: Seq<int>,
    displaced: Seq<int>,
    pattern: int,
)
    requires
        matrix::is_period(period),
        anchors.len() == displaced.len(),
        0 <= distance < dimension <= pow2(anchors.len()),
        0 <= pattern < pow2(
            evaluation::split_patterns(anchors.len(), period, dimension - distance).bits,
        ),
        0 < evaluation::split_patterns(anchors.len(), period, dimension - distance).count(pattern),
    ensures
        ({
            let split = evaluation::split_patterns(anchors.len(), period, dimension - distance);
            let size = pow2(split.bits) as int;
            evaluation::entry_form(
                mle_laws::integers(),
                split,
                distance,
                anchors,
                displaced,
                pattern,
            ) == sums::sum_below(
                split.count(pattern) as nat,
                |h: int|
                    weight_pair(
                        anchors,
                        displaced,
                        h * size + pattern,
                        h * size + pattern + distance,
                    ),
            )
        }),
{
    let variables = anchors.len();
    let split = evaluation::split_patterns(variables, period, dimension - distance);
    let bits = split.bits;
    let size = pow2(bits) as int;
    let count = split.count(pattern);
    let n = count as nat;
    let moved = evaluation::displace(bits, pattern, distance);
    let total = moved.shift + moved.carry;
    evaluation::lemma_split(variables, period, dimension - distance);
    evaluation::lemma_displace(variables, period, dimension, distance, pattern);
    let left = evaluation::high_part(anchors, bits);
    let right = evaluation::high_part(displaced, bits);
    let high = evaluation::displaced_high(
        mle_laws::integers(),
        left,
        right,
        count,
        moved.shift,
        moved.carry,
    );
    let pairs = |h: int| mle_laws::weight(left, h + 0) * mle_laws::weight(right, h + total);
    if total == 0 {
        mle_laws::equal_sums_are_weight_pairs(left, right, count);
        sums::lemma_sum_equal(
            n,
            |i: int| mle_laws::weight(left, i) * mle_laws::weight(right, i),
            pairs,
        );
    } else {
        mle_laws::shifted_sums_are_displaced_pairs(left, right, count, moved.shift, moved.carry);
        sums::lemma_sum_equal(
            n,
            |i: int|
                mle_laws::weight(left, i) * mle_laws::weight(
                    right,
                    i + moved.shift + moved.carry,
                ),
            pairs,
        );
    }
    lemma_pair_factors(anchors, displaced, bits, pattern, moved.next, 0, total, n, high);
    let factored = |h: int|
        weight_pair(
            anchors,
            displaced,
            (h + 0) * pow2(bits) + pattern,
            (h + total) * pow2(bits) + moved.next,
        );
    let direct = |h: int|
        weight_pair(anchors, displaced, h * size + pattern, h * size + pattern + distance);
    assert forall|h: int| 0 <= h < n implies #[trigger] direct(h) == factored(h) by {
        assert((h + total) * size + moved.next == h * size + pattern + distance)
            by (nonlinear_arith)
            requires
                pattern + distance == total * size + moved.next,
        ;
        assert(h + 0 == h);
    }
    sums::lemma_sum_equal(n, direct, factored);
}

/// A pattern occurs exactly as often as its anchors lie below the limit.
proof fn lemma_count_exact(variables: nat, period: nat, limit: int, pattern: int, h: int)
    requires
        matrix::is_period(period),
        0 <= limit <= pow2(variables),
        0 <= pattern < pow2(evaluation::split_patterns(variables, period, limit).bits),
        0 <= h,
    ensures
        ({
            let split = evaluation::split_patterns(variables, period, limit);
            let size = pow2(split.bits) as int;
            h < split.count(pattern) <==> h * size + pattern < limit
        }),
{
    evaluation::lemma_split(variables, period, limit);
    evaluation::lemma_pattern_count(variables, period, limit, pattern);
    let split = evaluation::split_patterns(variables, period, limit);
    let size = pow2(split.bits) as int;
    let count = split.count(pattern);
    if h < count {
        assert(h * size <= (count - 1) * size) by (nonlinear_arith)
            requires
                h <= count - 1,
                0 < size,
        ;
    } else {
        assert(h * size >= count * size) by (nonlinear_arith)
            requires
                h >= count,
                0 < size,
        ;
    }
}

/// A table no longer than the padded domain is cut at its own period.
proof fn lemma_full_split(variables: nat, period: nat, limit: int)
    requires
        matrix::is_period(period),
        period <= pow2(variables),
    ensures
        pow2(evaluation::split_patterns(variables, period, limit).bits) == period,
{
    let table_bits = choose|bits: nat|
        bits <= problem::MAX_PERIOD_BITS && period == #[trigger] pow2(bits);
    if table_bits > 0 {
        lemma_pow2_strictly_increases((table_bits - 1) as nat, table_bits);
    }
    powers::lemma_padded_unique(period, table_bits);
    if variables < table_bits {
        lemma_pow2_strictly_increases(variables, table_bits);
    }
}

proof fn lemma_forward_term(
    dimension: nat,
    period: nat,
    pattern: int,
    offset: int,
    mantissa: int,
    row: Seq<int>,
    column: Seq<int>,
    start: int,
)
    requires
        matrix::is_period(period),
        row.len() == column.len(),
        period <= pow2(row.len()),
        0 <= offset < dimension <= pow2(row.len()),
        0 <= pattern < period,
    ensures
        evaluation::entry_term(
            mle_laws::integers(),
            dimension,
            period,
            pattern,
            offset,
            mantissa,
            row,
            column,
            start,
        ) == start + sums::sum_below(
            evaluation::split_patterns(row.len(), period, dimension as int).count(pattern) as nat,
            |h: int|
                entry_hit(dimension, row, column, h * (period as int) + pattern, offset, mantissa),
        ),
{
    let variables = row.len();
    let whole = evaluation::split_patterns(variables, period, dimension as int);
    let split = evaluation::split_patterns(variables, period, dimension - offset);
    let size = period as int;
    lemma_full_split(variables, period, dimension as int);
    lemma_full_split(variables, period, dimension - offset);
    evaluation::lemma_pattern_count(variables, period, dimension as int, pattern);
    evaluation::lemma_pattern_count(variables, period, dimension - offset, pattern);
    let all = whole.count(pattern) as nat;
    let reached = split.count(pattern) as nat;
    let hit = |h: int|
        entry_hit(dimension, row, column, h * (period as int) + pattern, offset, mantissa);
    if reached > 0 {
        lemma_count_exact(variables, period, dimension - offset, pattern, reached - 1);
        lemma_count_exact(variables, period, dimension as int, pattern, reached - 1);
    }
    assert(reached <= all);
    sums::lemma_sum_split(reached, (all - reached) as nat, hit);
    let beyond = |h: int| hit(reached + h);
    assert forall|h: int| 0 <= h < all - reached implies #[trigger] beyond(h) == 0 by {
        lemma_count_exact(variables, period, dimension - offset, pattern, reached + h);
    }
    sums::lemma_sum_zero((all - reached) as nat, beyond);
    if reached > 0 {
        lemma_entry_form(period, dimension as int, offset, row, column, pattern);
        let pair = |h: int|
            weight_pair(row, column, h * size + pattern, h * size + pattern + offset);
        assert forall|h: int| 0 <= h < reached implies #[trigger] hit(h) == mantissa * pair(h) by {
            lemma_count_exact(variables, period, dimension - offset, pattern, h);
            assert(0 <= h * size) by (nonlinear_arith)
                requires
                    0 <= h,
                    0 < size,
            ;
        }
        sums::lemma_sum_equal(reached, hit, |h: int| mantissa * pair(h));
        sums::lemma_sum_scale(reached, mantissa, pair);
    }
}

proof fn lemma_backward_term(
    dimension: nat,
    period: nat,
    pattern: int,
    offset: int,
    mantissa: int,
    row: Seq<int>,
    column: Seq<int>,
    start: int,
)
    requires
        matrix::is_period(period),
        row.len() == column.len(),
        period <= pow2(row.len()),
        offset < 0,
        -offset < dimension <= pow2(row.len()),
        0 <= pattern < period,
    ensures
        evaluation::entry_term(
            mle_laws::integers(),
            dimension,
            period,
            pattern,
            offset,
            mantissa,
            row,
            column,
            start,
        ) == start + sums::sum_below(
            evaluation::split_patterns(row.len(), period, dimension as int).count(pattern) as nat,
            |h: int|
                entry_hit(dimension, row, column, h * (period as int) + pattern, offset, mantissa),
        ),
{
    let variables = row.len();
    let distance = -offset;
    let whole = evaluation::split_patterns(variables, period, dimension as int);
    let split = evaluation::split_patterns(variables, period, dimension - distance);
    let size = period as int;
    lemma_full_split(variables, period, dimension as int);
    lemma_full_split(variables, period, dimension - distance);
    let anchor = (pattern + offset) % size;
    // Rows of the pattern start `skipped` periods after the anchors.
    let skipped = -((pattern + offset) / size);
    assert(pattern + offset == -skipped * size + anchor && 0 <= anchor < size) by {
        vstd::arithmetic::div_mod::lemma_fundamental_div_mod(pattern + offset, size);
        vstd::arithmetic::mul::lemma_mul_is_commutative(size, (pattern + offset) / size);
    }
    assert(skipped >= 0) by (nonlinear_arith)
        requires
            pattern + offset == -skipped * size + anchor,
            offset < 0,
            0 <= pattern < size,
            0 <= anchor,
    ;
    evaluation::lemma_pattern_count(variables, period, dimension as int, pattern);
    evaluation::lemma_pattern_count(variables, period, dimension - distance, anchor);
    let all = whole.count(pattern) as nat;
    let reached = split.count(anchor) as nat;
    let hit = |h: int|
        entry_hit(dimension, row, column, h * (period as int) + pattern, offset, mantissa);
    let before = if skipped < all {
        skipped as nat
    } else {
        all
    };
    assert forall|h: int| 0 <= h < before implies #[trigger] hit(h) == 0 by {
        assert(h * size + pattern + offset < 0) by (nonlinear_arith)
            requires
                h <= skipped - 1,
                pattern + offset == -skipped * size + anchor,
                anchor < size,
                0 < size,
        ;
    }
    sums::lemma_sum_zero(before, hit);
    assert forall|h: int| 0 <= h implies (#[trigger] (h + skipped)) * size + pattern + offset == h
        * size + anchor by {
        assert((h + skipped) * size + pattern + offset == h * size + anchor) by (nonlinear_arith)
            requires
                pattern + offset == -skipped * size + anchor,
        ;
    }
    if reached > 0 {
        let last = reached - 1;
        lemma_count_exact(variables, period, dimension - distance, anchor, last);
        lemma_count_exact(variables, period, dimension as int, pattern, last + skipped);
    }
    if skipped < all {
        let last = all - 1 - skipped;
        assert(last + skipped == all - 1);
        lemma_count_exact(variables, period, dimension as int, pattern, last + skipped);
        lemma_count_exact(variables, period, dimension - distance, anchor, last);
    }
    assert(all == before + reached);
    sums::lemma_sum_split(before, reached, hit);
    if reached > 0 {
        lemma_entry_form(period, dimension as int, distance, column, row, anchor);
        let pair = |h: int|
            weight_pair(column, row, h * size + anchor, h * size + anchor + distance);
        let later = |h: int| hit(before + h);
        assert forall|h: int| 0 <= h < reached implies #[trigger] later(h) == mantissa * pair(
            h,
        ) by {
            lemma_count_exact(variables, period, dimension - distance, anchor, h);
            assert(0 <= h * size) by (nonlinear_arith)
                requires
                    0 <= h,
                    0 < size,
            ;
            let i = (h + skipped) * size + pattern;
            let j = h * size + anchor;
            assert(i + offset == j);
            let a = mle_laws::weight(row, i);
            let b = mle_laws::weight(column, j);
            assert(a * b == b * a) by (nonlinear_arith);
        }
        sums::lemma_sum_equal(reached, later, |h: int| mantissa * pair(h));
        sums::lemma_sum_scale(reached, mantissa, pair);
    }
}

/// The hits of one entry of a row pattern.
spec fn pattern_hits(
    dimension: nat,
    period: nat,
    row: Seq<int>,
    column: Seq<int>,
    pattern: int,
    offset: int,
    mantissa: int,
) -> int {
    sums::sum_below(
        evaluation::split_patterns(row.len(), period, dimension as int).count(pattern) as nat,
        |h: int|
            entry_hit(dimension, row, column, h * (period as int) + pattern, offset, mantissa),
    )
}

proof fn lemma_entry_term(
    dimension: nat,
    period: nat,
    pattern: int,
    offset: int,
    mantissa: int,
    row: Seq<int>,
    column: Seq<int>,
    start: int,
)
    requires
        matrix::is_period(period),
        row.len() == column.len(),
        period <= pow2(row.len()),
        problem::magnitude(offset) < dimension <= pow2(row.len()),
        0 <= pattern < period,
    ensures
        evaluation::entry_term(
            mle_laws::integers(),
            dimension,
            period,
            pattern,
            offset,
            mantissa,
            row,
            column,
            start,
        ) == start + pattern_hits(dimension, period, row, column, pattern, offset, mantissa),
{
    if offset >= 0 {
        lemma_forward_term(dimension, period, pattern, offset, mantissa, row, column, start);
    } else {
        lemma_backward_term(dimension, period, pattern, offset, mantissa, row, column, start);
    }
}

proof fn lemma_row_entries(
    dimension: nat,
    period: nat,
    pattern: int,
    offsets: Seq<i32>,
    values: Seq<i64>,
    first: int,
    row: Seq<int>,
    column: Seq<int>,
    start: int,
    count: nat,
)
    requires
        matrix::is_period(period),
        row.len() == column.len(),
        period <= pow2(row.len()),
        dimension <= pow2(row.len()),
        0 <= pattern < period,
        forall|k: int|
            0 <= k < count ==> problem::magnitude(#[trigger] offsets[first + k] as int) < dimension,
    ensures
        evaluation::row_entries(
            mle_laws::integers(),
            dimension,
            period,
            pattern,
            offsets,
            values,
            first,
            row,
            column,
            start,
            count,
        ) == start + sums::sum_below(
            count,
            |k: int|
                pattern_hits(
                    dimension,
                    period,
                    row,
                    column,
                    pattern,
                    offsets[first + k] as int,
                    values[first + k] as int,
                ),
        ),
    decreases count,
{
    if count > 0 {
        let fewer = (count - 1) as nat;
        lemma_row_entries(
            dimension,
            period,
            pattern,
            offsets,
            values,
            first,
            row,
            column,
            start,
            fewer,
        );
        let before = evaluation::row_entries(
            mle_laws::integers(),
            dimension,
            period,
            pattern,
            offsets,
            values,
            first,
            row,
            column,
            start,
            fewer,
        );
        assert(first + count - 1 == first + fewer);
        assert(problem::magnitude(offsets[first + fewer] as int) < dimension);
        lemma_entry_term(
            dimension,
            period,
            pattern,
            offsets[first + count - 1] as int,
            values[first + count - 1] as int,
            row,
            column,
            before,
        );
    }
}

/// What the rows of one pattern add to a row-sparse scan.
spec fn pattern_part(matrix: MatrixModel, row: Seq<int>, column: Seq<int>, pattern: int) -> int {
    match matrix {
        MatrixModel::RowSparse { dimension, width, offsets, values, diagonal, .. } => {
            pattern_hits(
                dimension,
                diagonal.len(),
                row,
                column,
                pattern,
                0,
                diagonal[pattern] as int,
            ) + sums::sum_below(
                width,
                |k: int|
                    pattern_hits(
                        dimension,
                        diagonal.len(),
                        row,
                        column,
                        pattern,
                        offsets[pattern * width + k] as int,
                        values[pattern * width + k] as int,
                    ),
            )
        },
        _ => 0,
    }
}

proof fn lemma_row_sparse_terms(
    matrix: MatrixModel,
    row: Seq<int>,
    column: Seq<int>,
    count: nat,
)
    requires
        matrix.wf(),
        matrix is RowSparse,
        row.len() == powers::ceil_log2(matrix.dimension()),
        row.len() == column.len(),
    ensures
        matrix matches MatrixModel::RowSparse { dimension, width, offsets, values, diagonal, .. }
            ==> (count <= diagonal.len() ==> evaluation::row_sparse_terms(
            mle_laws::integers(),
            dimension,
            width,
            offsets,
            values,
            diagonal,
            row,
            column,
            count,
        ) == sums::sum_below(count, |p: int| pattern_part(matrix, row, column, p))),
    decreases count,
{
    match matrix {
        MatrixModel::RowSparse { dimension, width, offsets, values, diagonal, .. } => {
            if 0 < count <= diagonal.len() {
                let fewer = (count - 1) as nat;
                let pattern = count - 1;
                powers::lemma_padded(dimension);
                lemma_row_sparse_terms(matrix, row, column, fewer);
                let before = evaluation::row_sparse_terms(
                    mle_laws::integers(),
                    dimension,
                    width,
                    offsets,
                    values,
                    diagonal,
                    row,
                    column,
                    fewer,
                );
                lemma_entry_term(
                    dimension,
                    diagonal.len(),
                    pattern,
                    0,
                    diagonal[pattern] as int,
                    row,
                    column,
                    before,
                );
                let start = evaluation::entry_term(
                    mle_laws::integers(),
                    dimension,
                    diagonal.len(),
                    pattern,
                    0,
                    diagonal[pattern] as int,
                    row,
                    column,
                    before,
                );
                assert forall|k: int| 0 <= k < width implies problem::magnitude(
                    #[trigger] offsets[pattern * width + k] as int,
                ) < dimension by {}
                lemma_row_entries(
                    dimension,
                    diagonal.len(),
                    pattern,
                    offsets,
                    values,
                    pattern * width,
                    row,
                    column,
                    start,
                    width,
                );
            }
        },
        _ => {},
    }
}

/// A row of a row-sparse matrix times a weight, entry by entry.
proof fn lemma_row_sparse_product(matrix: MatrixModel, row: Seq<int>, column: Seq<int>, i: int)
    requires
        matrix.wf(),
        0 <= i < matrix.dimension(),
    ensures
        matrix matches MatrixModel::RowSparse { dimension, width, offsets, values, diagonal, .. }
            ==> sums::sum_below(
            dimension,
            |j: int| matrix.coefficient(i, j) * weight_pair(row, column, i, j),
        ) == entry_hit(
            dimension,
            row,
            column,
            i,
            0,
            diagonal[matrix.pattern(i)] as int,
        ) + sums::sum_below(
            width,
            |k: int|
                entry_hit(
                    dimension,
                    row,
                    column,
                    i,
                    offsets[matrix.pattern(i) * width + k] as int,
                    values[matrix.pattern(i) * width + k] as int,
                ),
        ),
{
    match matrix {
        MatrixModel::RowSparse { dimension, width, offsets, values, diagonal, .. } => {
            let first = matrix.pattern(i) * width;
            let p = matrix.pattern(i);
            assert(0 <= p < diagonal.len());
            let whole = |j: int| matrix.coefficient(i, j) * weight_pair(row, column, i, j);
            let own_value = diagonal[p] as int * weight_pair(row, column, i, i);
            let own = |j: int|
                if j == i {
                    own_value
                } else {
                    0
                };
            let at = |j: int, k: int|
                if j == i + offsets[first + k] {
                    values[first + k] as int * weight_pair(
                        row,
                        column,
                        i,
                        i + offsets[first + k],
                    )
                } else {
                    0
                };
            let by_column = |j: int| sums::sum_below(width, |k: int| at(j, k));
            let by_entry = |k: int| sums::sum_below(dimension, |j: int| at(j, k));
            assert forall|j: int| 0 <= j < dimension implies #[trigger] whole(j) == own(j)
                + by_column(j) by {
                let pair = weight_pair(row, column, i, j);
                if j == i {
                    assert forall|k: int| 0 <= k < width implies #[trigger] at(j, k) == 0 by {
                        assert(offsets[p * width + k] != 0);
                    }
                    sums::lemma_sum_zero(width, |k: int| at(j, k));
                } else {
                    let term = |k: int|
                        if offsets[first + k] == j - i {
                            values[first + k] as int
                        } else {
                            0
                        };
                    lemma_scale_right(width, pair, term);
                    assert forall|k: int| 0 <= k < width implies #[trigger] at(j, k) == term(k)
                        * pair by {
                        assert(0 * pair == 0) by (nonlinear_arith);
                    }
                    sums::lemma_sum_equal(
                        width,
                        |k: int| at(j, k),
                        |k: int| term(k) * pair,
                    );
                    sums::lemma_sum_equal(
                        width,
                        term,
                        |k: int|
                            if offsets[first + k] == j - i {
                                values[first + k] as int
                            } else {
                                0
                            },
                    );
                }
            }
            sums::lemma_sum_equal(dimension, whole, |j: int| own(j) + by_column(j));
            sums::lemma_sum_add(dimension, own, by_column);
            sums::lemma_sum_indicator(dimension, i, own_value);
            assert(i + 0 == i);
            sums::lemma_sum_swap(dimension, width, at);
            let hit = |k: int|
                entry_hit(
                    dimension,
                    row,
                    column,
                    i,
                    offsets[matrix.pattern(i) * width + k] as int,
                    values[matrix.pattern(i) * width + k] as int,
                );
            assert forall|k: int| 0 <= k < width implies #[trigger] by_entry(k) == hit(k) by {
                let target = i + offsets[first + k];
                let value = values[first + k] as int * weight_pair(row, column, i, target);
                sums::lemma_sum_indicator(dimension, target, value);
                sums::lemma_sum_equal(
                    dimension,
                    |j: int| at(j, k),
                    |j: int|
                        if j == target {
                            value
                        } else {
                            0
                        },
                );
            }
            sums::lemma_sum_equal(width, by_entry, hit);
        },
        _ => {},
    }
}

/// The rows of one pattern add up to the pattern's part of the scan.
proof fn lemma_pattern_rows(matrix: MatrixModel, row: Seq<int>, column: Seq<int>, pattern: int)
    requires
        matrix.wf(),
        row.len() == powers::ceil_log2(matrix.dimension()),
        row.len() == column.len(),
    ensures
        matrix matches MatrixModel::RowSparse { dimension, diagonal, .. } ==> (0 <= pattern
            < diagonal.len() ==> pattern_sum(
            diagonal.len() as int,
            pattern,
            evaluation::split_patterns(row.len(), diagonal.len(), dimension as int).count(pattern),
            |i: int|
                sums::sum_below(
                    matrix.dimension(),
                    |j: int| matrix.coefficient(i, j) * weight_pair(row, column, i, j),
                ),
        ) == pattern_part(matrix, row, column, pattern)),
{
    match matrix {
        MatrixModel::RowSparse { dimension, width, offsets, values, diagonal, .. } => {
            if 0 <= pattern < diagonal.len() {
                let period = diagonal.len();
                let split = evaluation::split_patterns(row.len(), period, dimension as int);
                let count = split.count(pattern) as nat;
                powers::lemma_padded(dimension);
                lemma_full_split(row.len(), period, dimension as int);
                evaluation::lemma_pattern_count(row.len(), period, dimension as int, pattern);
                let value = |i: int|
                    sums::sum_below(
                        matrix.dimension(),
                        |j: int| matrix.coefficient(i, j) * weight_pair(row, column, i, j),
                    );
                let rows = |h: int| value(h * (period as int) + pattern);
                let own = |h: int|
                    entry_hit(
                        dimension,
                        row,
                        column,
                        h * (period as int) + pattern,
                        0,
                        diagonal[pattern] as int,
                    );
                let hit = |h: int, k: int|
                    entry_hit(
                        dimension,
                        row,
                        column,
                        h * (period as int) + pattern,
                        offsets[pattern * width + k] as int,
                        values[pattern * width + k] as int,
                    );
                let by_row = |h: int| sums::sum_below(width, |k: int| hit(h, k));
                let by_entry = |k: int| sums::sum_below(count, |h: int| hit(h, k));
                assert forall|h: int| 0 <= h < count implies #[trigger] rows(h) == own(h) + by_row(
                    h,
                ) by {
                    let i = h * (period as int) + pattern;
                    lemma_table_index(row.len(), period, dimension as int, pattern, h);
                    assert(matrix.pattern(i) == pattern);
                    lemma_row_sparse_product(matrix, row, column, i);
                    sums::lemma_sum_equal(
                        width,
                        |k: int| hit(h, k),
                        |k: int|
                            entry_hit(
                                dimension,
                                row,
                                column,
                                i,
                                offsets[matrix.pattern(i) * width + k] as int,
                                values[matrix.pattern(i) * width + k] as int,
                            ),
                    );
                    sums::lemma_sum_equal(
                        dimension,
                        |j: int| matrix.coefficient(i, j) * weight_pair(row, column, i, j),
                        |j: int| matrix.coefficient(i, j) * weight_pair(row, column, i, j),
                    );
                }
                sums::lemma_sum_equal(count, rows, |h: int| own(h) + by_row(h));
                sums::lemma_sum_add(count, own, by_row);
                sums::lemma_sum_swap(count, width, hit);
                let part = |k: int|
                    pattern_hits(
                        dimension,
                        diagonal.len(),
                        row,
                        column,
                        pattern,
                        offsets[pattern * width + k] as int,
                        values[pattern * width + k] as int,
                    );
                assert forall|k: int| 0 <= k < width implies #[trigger] by_entry(k) == part(k) by {
                    sums::lemma_sum_equal(
                        count,
                        |h: int| hit(h, k),
                        |h: int|
                            entry_hit(
                                dimension,
                                row,
                                column,
                                h * (period as int) + pattern,
                                offsets[pattern * width + k] as int,
                                values[pattern * width + k] as int,
                            ),
                    );
                }
                sums::lemma_sum_equal(width, by_entry, part);
            }
        },
        _ => {},
    }
}

proof fn lemma_row_sparse_evaluation(matrix: MatrixModel, row: Seq<int>, column: Seq<int>)
    requires
        matrix.wf(),
        matrix is RowSparse,
        row.len() == powers::ceil_log2(matrix.dimension()),
        column.len() == row.len(),
    ensures
        evaluation::matrix_value(mle_laws::integers(), matrix, row, column) == matrix_scan(
            matrix,
            row,
            column,
        ),
{
    match matrix {
        MatrixModel::RowSparse { dimension, diagonal, .. } => {
            let split = evaluation::split_patterns(row.len(), diagonal.len(), dimension as int);
            let value = |i: int|
                sums::sum_below(
                    matrix.dimension(),
                    |j: int| matrix.coefficient(i, j) * weight_pair(row, column, i, j),
                );
            powers::lemma_padded(dimension);
            lemma_full_split(row.len(), diagonal.len(), dimension as int);
            evaluation::lemma_split(row.len(), diagonal.len(), dimension as int);
            lemma_group(row.len(), diagonal.len(), dimension as int, value);
            lemma_row_sparse_terms(matrix, row, column, split.active());
            let grouped = |p: int|
                pattern_sum(diagonal.len() as int, p, split.count(p), value);
            let part = |p: int| pattern_part(matrix, row, column, p);
            assert forall|p: int| 0 <= p < split.active() implies #[trigger] grouped(p) == part(
                p,
            ) by {
                lemma_pattern_rows(matrix, row, column, p);
            }
            sums::lemma_sum_equal(split.active(), grouped, part);
        },
        _ => {},
    }
}

/// Over the integers, a matrix evaluation is the complete scan: the sum over
/// all rows and columns of the exact mantissa times the two basis weights.
pub proof fn matrix_evaluation_is_the_complete_scan(
    matrix: MatrixModel,
    row: Seq<int>,
    column: Seq<int>,
)
    requires
        matrix.wf(),
        row.len() == powers::ceil_log2(matrix.dimension()),
        column.len() == row.len(),
    ensures
        evaluation::matrix_value(mle_laws::integers(), matrix, row, column) == matrix_scan(
            matrix,
            row,
            column,
        ),
{
    if matrix is RowSparse {
        lemma_row_sparse_evaluation(matrix, row, column);
    } else {
        lemma_symmetric_evaluation(matrix, row, column);
    }
}

} // verus!
