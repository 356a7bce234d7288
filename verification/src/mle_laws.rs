//! What the bit-serial automata compute over the integers, and how homomorphic
//! scalars inherit it.

use vstd::arithmetic::power2::*;
use vstd::prelude::*;

use crate::mle;
use crate::mle::{CarryStates, ScalarOps};
use crate::sums;

verus! {

/// Integer arithmetic.
pub open spec fn integers() -> ScalarOps<int> {
    ScalarOps {
        zero: 0,
        one: 1,
        embed: |value: int| value,
        sum: |left: int, right: int| left + right,
        difference: |left: int, right: int| left - right,
        product: |left: int, right: int| left * right,
    }
}

/// The weight of an index at an integer point: the product of the selected
/// coordinates and the complements of the others.
pub open spec fn weight(point: Seq<int>, index: int) -> int {
    mle::basis(integers(), point, index)
}

pub proof fn lemma_weight_unfold(point: Seq<int>, index: int)
    requires
        point.len() > 0,
    ensures
        weight(point, index) == weight(point.drop_last(), index / 2) * (if index % 2 == 0 {
            1 - point.last()
        } else {
            point.last()
        }),
{
}

/// The weight of an index splits at any coordinate: the leading coordinates
/// see the high part of the index, the trailing ones the low part.
pub proof fn lemma_weight_split(high: Seq<int>, low: Seq<int>, h: int, l: int)
    requires
        0 <= l < pow2(low.len()),
        0 <= h,
    ensures
        weight(high + low, h * pow2(low.len()) + l) == weight(high, h) * weight(low, l),
    decreases low.len(),
{
    let point = high + low;
    let index = h * pow2(low.len()) + l;
    if low.len() == 0 {
        lemma2_to64();
        assert(point =~= high);
        assert(weight(low, l) == 1);
        assert(h * 1 + 0 == h) by (nonlinear_arith);
        assert(weight(high, h) * 1 == weight(high, h)) by (nonlinear_arith);
    } else {
        let shorter = low.drop_last();
        let size = pow2(shorter.len()) as int;
        lemma_pow2_unfold(low.len());
        assert(pow2(low.len()) == 2 * size);
        assert(point.drop_last() =~= high + shorter);
        assert(index == 2 * (h * size + l / 2) + l % 2) by (nonlinear_arith)
            requires
                index == h * (2 * size) + l,
        ;
        let half = h * size + l / 2;
        assert(index / 2 == half && index % 2 == l % 2);
        assert(l / 2 < size);
        lemma_weight_split(high, shorter, h, l / 2);
        lemma_weight_unfold(point, index);
        lemma_weight_unfold(low, l);
        let factor = if l % 2 == 0 {
            1 - low.last()
        } else {
            low.last()
        };
        assert(weight(high, h) * weight(shorter, l / 2) * factor == weight(high, h) * (weight(
            shorter,
            l / 2,
        ) * factor)) by (nonlinear_arith);
    }
}

/// Adding a leading coordinate to a suffix of a point.
proof fn lemma_weight_lead(coordinate: int, rest: Seq<int>, index: int)
    requires
        0 <= index < pow2(rest.len()),
    ensures
        weight(seq![coordinate] + rest, index) == (1 - coordinate) * weight(rest, index),
        weight(seq![coordinate] + rest, index + pow2(rest.len())) == coordinate * weight(
            rest,
            index,
        ),
{
    let lead = seq![coordinate];
    lemma_weight_split(lead, rest, 0, index);
    lemma_weight_split(lead, rest, 1, index);
    assert(0 * pow2(rest.len()) + index == index) by (nonlinear_arith);
    assert(1 * pow2(rest.len()) + index == index + pow2(rest.len())) by (nonlinear_arith);
    assert(lead.drop_last() =~= Seq::<int>::empty());
    lemma_weight_unfold(lead, 0);
    lemma_weight_unfold(lead, 1);
    assert(weight(Seq::<int>::empty(), 0) == 1);
    assert(1 * (1 - coordinate) == 1 - coordinate) by (nonlinear_arith);
    assert(1 * coordinate == coordinate) by (nonlinear_arith);
}

/// The last `bits` coordinates of a point.
pub open spec fn tail(point: Seq<int>, bits: nat) -> Seq<int> {
    point.skip(point.len() - bits)
}

proof fn lemma_tail(point: Seq<int>, bits: nat)
    requires
        bits < point.len(),
    ensures
        tail(point, bits + 1) == seq![point[point.len() - bits - 1]] + tail(point, bits),
        tail(point, bits).len() == bits,
{
    assert(tail(point, bits + 1) =~= seq![point[point.len() - bits - 1]] + tail(point, bits));
}

/// The sum of the weights of the indices in `low..high`.
pub open spec fn weight_sum(point: Seq<int>, low: int, high: int) -> int {
    sums::sum_below((high - low) as nat, |i: int| weight(point, low + i))
}

proof fn lemma_weight_sum_split(point: Seq<int>, low: int, middle: int, high: int)
    requires
        low <= middle <= high,
    ensures
        weight_sum(point, low, high) == weight_sum(point, low, middle) + weight_sum(
            point,
            middle,
            high,
        ),
{
    let term = |i: int| weight(point, low + i);
    sums::lemma_sum_split((middle - low) as nat, (high - middle) as nat, term);
    sums::lemma_sum_equal(
        (high - middle) as nat,
        |i: int| term((middle - low) + i),
        |i: int| weight(point, middle + i),
    );
    sums::lemma_sum_equal(
        (high - middle) as nat,
        |i: int| term((middle - low) as nat + i),
        |i: int| term((middle - low) + i),
    );
}

proof fn lemma_weight_sum_lead(coordinate: int, rest: Seq<int>, low: int, high: int)
    requires
        0 <= low <= high <= pow2(rest.len()),
    ensures
        weight_sum(seq![coordinate] + rest, low, high) == (1 - coordinate) * weight_sum(
            rest,
            low,
            high,
        ),
        weight_sum(
            seq![coordinate] + rest,
            low + pow2(rest.len()),
            high + pow2(rest.len()),
        ) == coordinate * weight_sum(rest, low, high),
{
    let size = pow2(rest.len()) as int;
    let count = (high - low) as nat;
    let inner = |i: int| weight(rest, low + i);
    sums::lemma_sum_scale(count, 1 - coordinate, inner);
    sums::lemma_sum_scale(count, coordinate, inner);
    let zero = |i: int| weight(seq![coordinate] + rest, low + i);
    let one = |i: int| weight(seq![coordinate] + rest, low + size + i);
    assert forall|i: int| 0 <= i < count implies #[trigger] zero(i) == (1 - coordinate) * inner(
        i,
    ) by {
        lemma_weight_lead(coordinate, rest, low + i);
    }
    assert forall|i: int| 0 <= i < count implies #[trigger] one(i) == coordinate * inner(i) by {
        lemma_weight_lead(coordinate, rest, low + i);
        assert(low + size + i == low + i + size);
    }
    sums::lemma_sum_equal(count, zero, |i: int| (1 - coordinate) * inner(i));
    sums::lemma_sum_equal(count, one, |i: int| coordinate * inner(i));
}

/// A limit modulo a power of two gains the next bit.
proof fn lemma_modulo_step(value: int, bits: nat)
    requires
        0 <= value,
    ensures
        value % pow2(bits + 1) as int == mle::bit_of(value, bits) * pow2(bits) + value % pow2(
            bits,
        ) as int,
        0 <= value % (pow2(bits) as int) < pow2(bits),
        0 <= mle::bit_of(value, bits) <= 1,
        pow2(bits + 1) == 2 * pow2(bits),
{
    lemma_pow2_pos(bits);
    lemma_pow2_unfold(bits + 1);
    let size = pow2(bits) as int;
    let quotient = value / size;
    let remainder = value % size;
    let bit = quotient % 2;
    let half = quotient / 2;
    assert(value == quotient * size + remainder) by (nonlinear_arith)
        requires
            quotient == value / size,
            remainder == value % size,
            0 < size,
    ;
    assert(quotient == 2 * half + bit);
    assert(value == half * (2 * size) + (bit * size + remainder)) by (nonlinear_arith)
        requires
            value == quotient * size + remainder,
            quotient == 2 * half + bit,
    ;
    assert(0 <= bit * size + remainder < 2 * size) by (nonlinear_arith)
        requires
            0 <= bit <= 1,
            0 <= remainder < size,
    ;
    assert(value % (2 * size) == bit * size + remainder) by (nonlinear_arith)
        requires
            value == half * (2 * size) + (bit * size + remainder),
            0 <= bit * size + remainder < 2 * size,
    ;
}

proof fn lemma_step_arithmetic(a: int, b: int, x: int)
    ensures
        (0 + a * (1 - x)) + a * x == a,
        0 + b * (1 - x) == (1 - x) * b,
        0 + a * (1 - x) == (1 - x) * a,
        a * x == x * a,
        b * x == x * b,
        (1 - x) * a + x * a == a,
{
    assert((0 + a * (1 - x)) + a * x == a) by (nonlinear_arith);
    assert(0 + b * (1 - x) == (1 - x) * b) by (nonlinear_arith);
    assert(0 + a * (1 - x) == (1 - x) * a) by (nonlinear_arith);
    assert(a * x == x * a) by (nonlinear_arith);
    assert(b * x == x * b) by (nonlinear_arith);
    assert((1 - x) * a + x * a == a) by (nonlinear_arith);
}

/// After `bits` coordinates the two states hold the weights at or above, and
/// below, the low bits of the limit.
proof fn lemma_index_states(point: Seq<int>, limit: int, bits: nat)
    requires
        bits <= point.len(),
        0 <= limit,
    ensures
        ({
            let rest = tail(point, bits);
            let cut = limit % pow2(bits) as int;
            let states = mle::index_states(integers(), point, limit, bits);
            &&& states.0 == weight_sum(rest, cut, pow2(bits) as int)
            &&& states.1 == weight_sum(rest, 0, cut)
        }),
    decreases bits,
{
    let ops = integers();
    let rest = tail(point, bits);
    if bits == 0 {
        lemma2_to64();
        assert(limit % 1 == 0);
        assert(rest =~= Seq::<int>::empty());
        assert(weight(rest, 0) == 1);
        reveal_with_fuel(sums::sum_below, 2);
    } else {
        let before = (bits - 1) as nat;
        let shorter = tail(point, before);
        let x = point[point.len() - bits];
        let size = pow2(before) as int;
        let cut = limit % size;
        let bit = mle::bit_of(limit, before);
        lemma_index_states(point, limit, before);
        lemma_tail(point, before);
        lemma_modulo_step(limit, before);
        let states = mle::index_states(ops, point, limit, before);
        let next = mle::index_states(ops, point, limit, bits);
        assert(rest == seq![x] + shorter);
        lemma_weight_sum_lead(x, shorter, 0, cut);
        lemma_weight_sum_lead(x, shorter, cut, size);
        lemma_weight_sum_lead(x, shorter, 0, size);
        lemma_weight_sum_split(shorter, 0, cut, size);
        lemma_step_arithmetic(states.0, states.1, x);
        lemma_step_arithmetic(states.1, states.0, x);
        if bit == 0 {
            assert(0 * size + cut == cut) by (nonlinear_arith);
            // At or above the cut: the upper part of the lower half and the
            // whole upper half.
            lemma_weight_sum_split(rest, cut, size, 2 * size);
            assert(weight_sum(rest, cut, size) == (1 - x) * states.0);
            assert(weight_sum(rest, size, 2 * size) == x * (states.0 + states.1)) by {
                assert(0 + size == size && size + size == 2 * size);
            }
            assert(x * (states.0 + states.1) == x * states.0 + x * states.1) by (nonlinear_arith);
            assert(next.0 == 0 + states.0 * (1 - x) + states.0 * x + states.1 * x);
            assert(next.1 == 0 + states.1 * (1 - x));
        } else {
            assert(1 * size + cut == size + cut) by (nonlinear_arith);
            lemma_weight_sum_split(rest, 0, size, size + cut);
            assert(weight_sum(rest, 0, size) == (1 - x) * (states.0 + states.1));
            assert((1 - x) * (states.0 + states.1) == (1 - x) * states.0 + (1 - x) * states.1)
                by (nonlinear_arith);
            assert(weight_sum(rest, size, size + cut) == x * states.1) by {
                assert(0 + size == size && cut + size == size + cut);
            }
            assert(weight_sum(rest, size + cut, 2 * size) == x * states.0) by {
                assert(cut + size == size + cut && size + size == 2 * size);
            }
            assert(next.0 == 0 + states.0 * x);
            assert(next.1 == 0 + states.0 * (1 - x) + states.1 * (1 - x) + states.1 * x);
        }
    }
}

/// All weights of a domain add up to one.
pub proof fn lemma_weights_total(point: Seq<int>)
    ensures
        weight_sum(point, 0, pow2(point.len()) as int) == 1,
    decreases point.len(),
{
    if point.len() == 0 {
        lemma2_to64();
        assert(weight(point, 0) == 1);
        reveal_with_fuel(sums::sum_below, 2);
    } else {
        let x = point[0];
        let rest = point.skip(1);
        let size = pow2(rest.len()) as int;
        lemma_weights_total(rest);
        lemma_pow2_unfold(point.len());
        lemma_pow2_pos(rest.len());
        assert(point =~= seq![x] + rest);
        lemma_weight_sum_lead(x, rest, 0, size);
        lemma_weight_sum_split(point, 0, size, 2 * size);
        assert(weight_sum(point, size, 2 * size) == x * 1) by {
            assert(0 + size == size && size + size == 2 * size);
        }
        assert((1 - x) * 1 + x * 1 == 1) by (nonlinear_arith);
    }
}

/// An index sum is the sum of the weights of the indices below the limit.
pub proof fn index_sums_are_weight_sums(point: Seq<int>, limit: int)
    requires
        0 <= limit <= pow2(point.len()),
    ensures
        mle::index_sum(integers(), point, limit) == weight_sum(point, 0, limit),
{
    if limit == pow2(point.len()) {
        lemma_weights_total(point);
        if limit == 0 {
            lemma_pow2_pos(point.len());
        }
    } else if limit > 0 {
        lemma_index_states(point, limit, point.len());
        assert(tail(point, point.len()) =~= point);
        assert(limit % pow2(point.len()) as int == limit) by (nonlinear_arith)
            requires
                0 <= limit < pow2(point.len()),
        ;
    }
}

/// The displacement seen by the last `bits` coordinates.
pub open spec fn low_shift(shift: int, carry: int, bits: nat) -> int {
    shift % (pow2(bits) as int) + carry
}

/// Whether adding the displacement to an index carries out of `bits` bits.
pub open spec fn carries(index: int, shift: int, carry: int, bits: nat) -> int {
    (index + low_shift(shift, carry, bits)) / (pow2(bits) as int)
}

/// Whether subtracting the low bits of the limit from an index borrows.
pub open spec fn borrowing(index: int, limit: int, bits: nat) -> int {
    if index < limit % (pow2(bits) as int) {
        1
    } else {
        0
    }
}

/// The weight pair of an index and its displaced counterpart.
pub open spec fn displaced_pair(
    left: Seq<int>,
    right: Seq<int>,
    shift: int,
    carry: int,
    bits: nat,
    index: int,
) -> int {
    weight(tail(left, bits), index) * weight(
        tail(right, bits),
        (index + low_shift(shift, carry, bits)) % (pow2(bits) as int),
    )
}

/// The total weight pair of the indices with a given carry and borrow.
pub open spec fn class_sum(
    left: Seq<int>,
    right: Seq<int>,
    limit: int,
    shift: int,
    carry: int,
    bits: nat,
    with_carry: int,
    with_borrow: int,
) -> int {
    sums::sum_below(
        pow2(bits),
        |i: int|
            if carries(i, shift, carry, bits) == with_carry && borrowing(i, limit, bits)
                == with_borrow {
                displaced_pair(left, right, shift, carry, bits, i)
            } else {
                0
            },
    )
}

/// The integer factor of an index bit.
spec fn factor(coordinate: int, bit: int) -> int {
    if bit == 0 {
        1 - coordinate
    } else {
        coordinate
    }
}

proof fn lemma_tail_weight(point: Seq<int>, bits: nat, index: int, bit: int)
    requires
        bits < point.len(),
        0 <= index < pow2(bits),
        0 <= bit <= 1,
    ensures
        weight(tail(point, bits + 1), index + bit * pow2(bits)) == factor(
            point[point.len() - bits - 1],
            bit,
        ) * weight(tail(point, bits), index),
{
    lemma_tail(point, bits);
    lemma_weight_lead(point[point.len() - bits - 1], tail(point, bits), index);
    assert(0 * pow2(bits) == 0) by (nonlinear_arith);
    assert(1 * pow2(bits) == pow2(bits)) by (nonlinear_arith);
}

/// How one more bit moves an index through the automaton.
proof fn lemma_class_step(index: int, bit: int, limit: int, shift: int, carry: int, bits: nat)
    requires
        0 <= index < pow2(bits),
        0 <= bit <= 1,
        0 <= limit,
        0 <= shift,
        0 <= carry <= 1,
    ensures
        ({
            let size = pow2(bits) as int;
            let total = bit + mle::bit_of(shift, bits) + carries(index, shift, carry, bits);
            let next = index + bit * size;
            &&& 0 <= carries(index, shift, carry, bits) <= 1
            &&& 0 <= (index + low_shift(shift, carry, bits)) % size < size
            &&& carries(next, shift, carry, bits + 1) == total / 2
            &&& (next + low_shift(shift, carry, bits + 1)) % (pow2(bits + 1) as int) == (index
                + low_shift(shift, carry, bits)) % size + (total % 2) * size
            &&& borrowing(next, limit, bits + 1) == mle::borrow_out(
                bit,
                mle::bit_of(limit, bits),
                borrowing(index, limit, bits),
            )
        }),
{
    lemma_modulo_step(limit, bits);
    lemma_modulo_step(shift, bits);
    lemma_pow2_pos(bits);
    let size = pow2(bits) as int;
    let moved = index + low_shift(shift, carry, bits);
    let overflow = moved / size;
    let rest = moved % size;
    let shift_bit = mle::bit_of(shift, bits);
    let limit_bit = mle::bit_of(limit, bits);
    let total = bit + shift_bit + overflow;
    let cut = limit % size;
    assert(0 <= moved < 2 * size);
    assert(moved == overflow * size + rest && 0 <= rest < size) by (nonlinear_arith)
        requires
            overflow == moved / size,
            rest == moved % size,
            0 < size,
    ;
    assert(0 <= overflow <= 1) by (nonlinear_arith)
        requires
            overflow == moved / size,
            0 <= moved < 2 * size,
    ;
    let next = index + bit * size;
    let next_moved = next + low_shift(shift, carry, bits + 1);
    assert(next_moved == total * size + rest) by (nonlinear_arith)
        requires
            next_moved == index + bit * size + (shift_bit * size + (moved - index)),
            moved == overflow * size + rest,
            total == bit + shift_bit + overflow,
    ;
    let half = total / 2;
    let odd = total % 2;
    assert(total == 2 * half + odd);
    assert(next_moved == half * (2 * size) + (odd * size + rest)) by (nonlinear_arith)
        requires
            next_moved == total * size + rest,
            total == 2 * half + odd,
    ;
    assert(0 <= odd * size + rest < 2 * size) by (nonlinear_arith)
        requires
            0 <= odd <= 1,
            0 <= rest < size,
    ;
    assert(next_moved / (2 * size) == half && next_moved % (2 * size) == odd * size + rest)
        by (nonlinear_arith)
        requires
            next_moved == half * (2 * size) + (odd * size + rest),
            0 <= odd * size + rest < 2 * size,
    ;
    // The borrow compares the new index with the limit's next bits.
    let next_cut = limit_bit * size + cut;
    if bit == 0 {
        assert(0 * size == 0) by (nonlinear_arith);
        if limit_bit == 0 {
            assert(next_cut == cut) by (nonlinear_arith)
                requires
                    next_cut == limit_bit * size + cut,
                    limit_bit == 0,
            ;
        } else {
            assert(next_cut == size + cut) by (nonlinear_arith)
                requires
                    next_cut == limit_bit * size + cut,
                    limit_bit == 1,
            ;
        }
    } else {
        assert(1 * size == size) by (nonlinear_arith);
        if limit_bit == 0 {
            assert(next_cut == cut) by (nonlinear_arith)
                requires
                    next_cut == limit_bit * size + cut,
                    limit_bit == 0,
            ;
        } else {
            assert(next_cut == size + cut) by (nonlinear_arith)
                requires
                    next_cut == limit_bit * size + cut,
                    limit_bit == 1,
            ;
        }
    }
}

/// What the indices of one class contribute to a class one bit later.
spec fn contribution(
    sum: int,
    with_carry: int,
    with_borrow: int,
    bit: int,
    limit_bit: int,
    shift_bit: int,
    x: int,
    y: int,
    next_carry: int,
    next_borrow: int,
) -> int {
    let total = bit + shift_bit + with_carry;
    if total / 2 == next_carry && mle::borrow_out(bit, limit_bit, with_borrow) == next_borrow {
        sum * (factor(x, bit) * factor(y, total % 2))
    } else {
        0
    }
}

/// The part of a class one bit later that a given index bit provides.
proof fn lemma_half_class(
    left: Seq<int>,
    right: Seq<int>,
    limit: int,
    shift: int,
    carry: int,
    bits: nat,
    bit: int,
    next_carry: int,
    next_borrow: int,
)
    requires
        bits < left.len(),
        left.len() == right.len(),
        0 <= limit,
        0 <= shift,
        0 <= carry <= 1,
        0 <= bit <= 1,
    ensures
        ({
            let x = left[left.len() - bits - 1];
            let y = right[left.len() - bits - 1];
            let limit_bit = mle::bit_of(limit, bits);
            let shift_bit = mle::bit_of(shift, bits);
            let sum = |c: int, w: int| class_sum(left, right, limit, shift, carry, bits, c, w);
            let part = |c: int, w: int|
                contribution(
                    sum(c, w),
                    c,
                    w,
                    bit,
                    limit_bit,
                    shift_bit,
                    x,
                    y,
                    next_carry,
                    next_borrow,
                );
            sums::sum_below(
                pow2(bits),
                |i: int|
                    if carries(i + bit * pow2(bits), shift, carry, bits + 1) == next_carry
                        && borrowing(i + bit * pow2(bits), limit, bits + 1) == next_borrow {
                        displaced_pair(left, right, shift, carry, bits + 1, i + bit * pow2(bits))
                    } else {
                        0
                    },
            ) == part(0, 0) + part(0, 1) + part(1, 0) + part(1, 1)
        }),
{
    let x = left[left.len() - bits - 1];
    let y = right[left.len() - bits - 1];
    let limit_bit = mle::bit_of(limit, bits);
    let shift_bit = mle::bit_of(shift, bits);
    let size = pow2(bits);
    lemma_modulo_step(limit, bits);
    lemma_modulo_step(shift, bits);
    let whole = |i: int|
        if carries(i + bit * pow2(bits), shift, carry, bits + 1) == next_carry && borrowing(
            i + bit * pow2(bits),
            limit,
            bits + 1,
        ) == next_borrow {
            displaced_pair(left, right, shift, carry, bits + 1, i + bit * pow2(bits))
        } else {
            0
        };
    let scale = |c: int, w: int|
        if (bit + shift_bit + c) / 2 == next_carry && mle::borrow_out(bit, limit_bit, w)
            == next_borrow {
            factor(x, bit) * factor(y, (bit + shift_bit + c) % 2)
        } else {
            0
        };
    let member = |c: int, w: int|
        |i: int|
            if carries(i, shift, carry, bits) == c && borrowing(i, limit, bits) == w {
                displaced_pair(left, right, shift, carry, bits, i)
            } else {
                0
            };
    let m00 = member(0, 0);
    let m01 = member(0, 1);
    let m10 = member(1, 0);
    let m11 = member(1, 1);
    let s00 = scale(0, 0);
    let s01 = scale(0, 1);
    let s10 = scale(1, 0);
    let s11 = scale(1, 1);
    let t00 = |i: int| s00 * m00(i);
    let t01 = |i: int| s01 * m01(i);
    let t10 = |i: int| s10 * m10(i);
    let t11 = |i: int| s11 * m11(i);
    assert forall|i: int| 0 <= i < size implies #[trigger] whole(i) == (t00(i) + t01(i)) + (t10(i)
        + t11(i)) by {
        lemma_class_step(i, bit, limit, shift, carry, bits);
        let c = carries(i, shift, carry, bits);
        let w = borrowing(i, limit, bits);
        let total = bit + shift_bit + c;
        let low = (i + low_shift(shift, carry, bits)) % (pow2(bits) as int);
        lemma_tail_weight(left, bits, i, bit);
        lemma_tail_weight(right, bits, low, total % 2);
        let a = weight(tail(left, bits), i);
        let b = weight(tail(right, bits), low);
        let f = factor(x, bit);
        let g = factor(y, total % 2);
        assert((f * a) * (g * b) == (f * g) * (a * b)) by (nonlinear_arith);
        assert(displaced_pair(left, right, shift, carry, bits + 1, i + bit * pow2(bits)) == (f * g)
            * displaced_pair(left, right, shift, carry, bits, i));
        let pair = displaced_pair(left, right, shift, carry, bits, i);
        assert(0 * pair == 0) by (nonlinear_arith);
        assert(s00 * 0 == 0 && s01 * 0 == 0 && s10 * 0 == 0 && s11 * 0 == 0) by (nonlinear_arith);
    }
    sums::lemma_sum_add(size, t00, t01);
    sums::lemma_sum_add(size, t10, t11);
    let first = |i: int| t00(i) + t01(i);
    let second = |i: int| t10(i) + t11(i);
    sums::lemma_sum_add(size, first, second);
    sums::lemma_sum_equal(size, whole, |i: int| first(i) + second(i));
    sums::lemma_sum_scale(size, s00, m00);
    sums::lemma_sum_scale(size, s01, m01);
    sums::lemma_sum_scale(size, s10, m10);
    sums::lemma_sum_scale(size, s11, m11);
    let c00 = class_sum(left, right, limit, shift, carry, bits, 0, 0);
    let c01 = class_sum(left, right, limit, shift, carry, bits, 0, 1);
    let c10 = class_sum(left, right, limit, shift, carry, bits, 1, 0);
    let c11 = class_sum(left, right, limit, shift, carry, bits, 1, 1);
    assert(sums::sum_below(size, m00) == c00);
    assert(sums::sum_below(size, m01) == c01);
    assert(sums::sum_below(size, m10) == c10);
    assert(sums::sum_below(size, m11) == c11);
    lemma_commute(s00, c00);
    lemma_commute(s01, c01);
    lemma_commute(s10, c10);
    lemma_commute(s11, c11);
}

proof fn lemma_commute(left: int, right: int)
    ensures
        left * right == right * left,
        0 * right == 0,
        right * 0 == 0,
{
    assert(left * right == right * left) by (nonlinear_arith);
    assert(0 * right == 0) by (nonlinear_arith);
    assert(right * 0 == 0) by (nonlinear_arith);
}

/// A class one bit later is what the classes of the two index bits provide.
proof fn lemma_next_class(
    left: Seq<int>,
    right: Seq<int>,
    limit: int,
    shift: int,
    carry: int,
    bits: nat,
    next_carry: int,
    next_borrow: int,
)
    requires
        bits < left.len(),
        left.len() == right.len(),
        0 <= limit,
        0 <= shift,
        0 <= carry <= 1,
    ensures
        ({
            let x = left[left.len() - bits - 1];
            let y = right[left.len() - bits - 1];
            let limit_bit = mle::bit_of(limit, bits);
            let shift_bit = mle::bit_of(shift, bits);
            let sum = |c: int, w: int| class_sum(left, right, limit, shift, carry, bits, c, w);
            let part = |bit: int, c: int, w: int|
                contribution(
                    sum(c, w),
                    c,
                    w,
                    bit,
                    limit_bit,
                    shift_bit,
                    x,
                    y,
                    next_carry,
                    next_borrow,
                );
            class_sum(left, right, limit, shift, carry, bits + 1, next_carry, next_borrow) == (part(
                0,
                0,
                0,
            ) + part(0, 0, 1) + part(0, 1, 0) + part(0, 1, 1)) + (part(1, 0, 0) + part(1, 0, 1)
                + part(1, 1, 0) + part(1, 1, 1))
        }),
{
    let size = pow2(bits);
    lemma_modulo_step(limit, bits);
    let whole = |i: int|
        if carries(i, shift, carry, bits + 1) == next_carry && borrowing(i, limit, bits + 1)
            == next_borrow {
            displaced_pair(left, right, shift, carry, bits + 1, i)
        } else {
            0
        };
    sums::lemma_sum_split(size, size, whole);
    assert(pow2(bits + 1) == size + size);
    lemma_half_class(left, right, limit, shift, carry, bits, 0, next_carry, next_borrow);
    lemma_half_class(left, right, limit, shift, carry, bits, 1, next_carry, next_borrow);
    let part = |bit: int|
        |i: int|
            if carries(i + bit * pow2(bits), shift, carry, bits + 1) == next_carry && borrowing(
                i + bit * pow2(bits),
                limit,
                bits + 1,
            ) == next_borrow {
                displaced_pair(left, right, shift, carry, bits + 1, i + bit * pow2(bits))
            } else {
                0
            };
    assert(0 * size == 0) by (nonlinear_arith);
    assert(1 * size == size) by (nonlinear_arith);
    sums::lemma_sum_equal(size, whole, part(0));
    sums::lemma_sum_equal(size, |i: int| whole(size + i), part(1));
}

/// After `bits` coordinates the four states hold the class sums.
proof fn lemma_shifted_states(
    left: Seq<int>,
    right: Seq<int>,
    limit: int,
    shift: int,
    carry: int,
    bits: nat,
)
    requires
        bits <= left.len(),
        left.len() == right.len(),
        0 <= limit,
        0 <= shift,
        0 <= carry <= 1,
    ensures
        ({
            let states = mle::shifted_states(integers(), left, right, limit, shift, carry, bits);
            &&& states.low.0 == class_sum(left, right, limit, shift, carry, bits, 0, 0)
            &&& states.low.1 == class_sum(left, right, limit, shift, carry, bits, 0, 1)
            &&& states.high.0 == class_sum(left, right, limit, shift, carry, bits, 1, 0)
            &&& states.high.1 == class_sum(left, right, limit, shift, carry, bits, 1, 1)
        }),
    decreases bits,
{
    if bits == 0 {
        lemma2_to64();
        reveal_with_fuel(sums::sum_below, 2);
        assert(limit % 1 == 0 && shift % 1 == 0);
        assert(carry / 1 == carry && carry % 1 == 0);
        assert(tail(left, 0) =~= Seq::<int>::empty());
        assert(tail(right, 0) =~= Seq::<int>::empty());
        assert(weight(Seq::<int>::empty(), 0) == 1);
        assert(displaced_pair(left, right, shift, carry, 0, 0) == 1);
        assert(carries(0, shift, carry, 0) == carry);
        assert(borrowing(0, limit, 0) == 0);
    } else {
        let before = (bits - 1) as nat;
        lemma_shifted_states(left, right, limit, shift, carry, before);
        lemma_modulo_step(limit, before);
        lemma_modulo_step(shift, before);
        lemma_next_class(left, right, limit, shift, carry, before, 0, 0);
        lemma_next_class(left, right, limit, shift, carry, before, 0, 1);
        lemma_next_class(left, right, limit, shift, carry, before, 1, 0);
        lemma_next_class(left, right, limit, shift, carry, before, 1, 1);
        let states = mle::shifted_states(integers(), left, right, limit, shift, carry, before);
        let limit_bit = mle::bit_of(limit, before);
        let shift_bit = mle::bit_of(shift, before);
        lemma_step_classes(
            states,
            limit_bit,
            shift_bit,
            left[left.len() - bits],
            right[left.len() - bits],
        );
    }
}

/// The integer automaton step adds up the contributions.
proof fn lemma_step_classes(
    states: CarryStates<int>,
    limit_bit: int,
    shift_bit: int,
    x: int,
    y: int,
)
    requires
        0 <= limit_bit <= 1,
        0 <= shift_bit <= 1,
    ensures
        ({
            let next = mle::shifted_step(integers(), states, limit_bit, shift_bit, x, y);
            let part = |bit: int, c: int, w: int, to_carry: int, to_borrow: int|
                contribution(
                    if c == 0 {
                        if w == 0 {
                            states.low.0
                        } else {
                            states.low.1
                        }
                    } else {
                        if w == 0 {
                            states.high.0
                        } else {
                            states.high.1
                        }
                    },
                    c,
                    w,
                    bit,
                    limit_bit,
                    shift_bit,
                    x,
                    y,
                    to_carry,
                    to_borrow,
                );
            let total = |to_carry: int, to_borrow: int|
                (part(0, 0, 0, to_carry, to_borrow) + part(0, 0, 1, to_carry, to_borrow) + part(
                    0,
                    1,
                    0,
                    to_carry,
                    to_borrow,
                ) + part(0, 1, 1, to_carry, to_borrow)) + (part(1, 0, 0, to_carry, to_borrow)
                    + part(1, 0, 1, to_carry, to_borrow) + part(1, 1, 0, to_carry, to_borrow)
                    + part(1, 1, 1, to_carry, to_borrow));
            &&& next.low.0 == total(0, 0)
            &&& next.low.1 == total(0, 1)
            &&& next.high.0 == total(1, 0)
            &&& next.high.1 == total(1, 1)
        }),
{
    assert(limit_bit == 0 || limit_bit == 1);
    assert(shift_bit == 0 || shift_bit == 1);
}

/// A shifted sum pairs each index below the limit with its displaced
/// counterpart.
pub proof fn shifted_sums_are_displaced_pairs(
    left: Seq<int>,
    right: Seq<int>,
    limit: int,
    shift: int,
    carry: int,
)
    requires
        left.len() == right.len(),
        0 <= limit,
        0 <= shift,
        0 <= carry <= 1,
        limit < pow2(left.len()),
        shift < pow2(left.len()),
        limit + shift + carry <= pow2(left.len()),
    ensures
        mle::shifted_sum(integers(), left, right, limit, shift, carry) == sums::sum_below(
            limit as nat,
            |i: int| weight(left, i) * weight(right, i + shift + carry),
        ),
{
    let bits = left.len();
    let size = pow2(bits) as int;
    lemma_shifted_states(left, right, limit, shift, carry, bits);
    assert(tail(left, bits) =~= left);
    assert(tail(right, bits) =~= right);
    assert(limit % size == limit) by (nonlinear_arith)
        requires
            0 <= limit < size,
    ;
    assert(shift % size == shift) by (nonlinear_arith)
        requires
            0 <= shift < size,
    ;
    let class = |i: int|
        if carries(i, shift, carry, bits) == 0 && borrowing(i, limit, bits) == 1 {
            displaced_pair(left, right, shift, carry, bits, i)
        } else {
            0
        };
    let direct = |i: int| weight(left, i) * weight(right, i + shift + carry);
    assert forall|i: int| 0 <= i < limit implies #[trigger] class(i) == direct(i) by {
        let moved = i + low_shift(shift, carry, bits);
        assert(moved / size == 0 && moved % size == moved) by (nonlinear_arith)
            requires
                0 <= moved < size,
        ;
        assert(moved == i + shift + carry);
    }
    sums::lemma_sum_split(limit as nat, (size - limit) as nat, class);
    sums::lemma_sum_equal(limit as nat, class, direct);
    let rest = |i: int| class(limit as nat + i);
    sums::lemma_sum_zero((size - limit) as nat, rest);
}

/// The comparison automaton for equal indices is the shifted one without a
/// displacement.
proof fn lemma_equal_states(left: Seq<int>, right: Seq<int>, limit: int, bits: nat)
    requires
        bits <= left.len(),
        left.len() == right.len(),
        0 <= limit,
    ensures
        ({
            let shifted = mle::shifted_states(integers(), left, right, limit, 0, 0, bits);
            let equal = mle::equal_states(integers(), left, right, limit, bits);
            &&& shifted.low == equal
            &&& shifted.high == (0int, 0int)
        }),
    decreases bits,
{
    if bits > 0 {
        let before = (bits - 1) as nat;
        lemma_equal_states(left, right, limit, before);
        lemma_modulo_step(limit, before);
        lemma_pow2_pos(before);
        assert(0int / (pow2(before) as int) == 0) by (nonlinear_arith)
            requires
                0 < pow2(before),
        ;
        let x = left[left.len() - bits];
        let y = right[left.len() - bits];
        let limit_bit = mle::bit_of(limit, before);
        assert(limit_bit == 0 || limit_bit == 1);
        let p = (1 - x) * y;
        let q = x * (1 - y);
        assert(0 * p == 0 && 0 * q == 0) by (nonlinear_arith);
        assert(0 * ((1 - x) * (1 - y)) == 0 && 0 * (x * y) == 0) by (nonlinear_arith);
    }
}

/// An equality sum adds up the products of the two weights of each index below
/// the limit.
pub proof fn equal_sums_are_weight_pairs(left: Seq<int>, right: Seq<int>, limit: int)
    requires
        left.len() == right.len(),
        0 <= limit <= pow2(left.len()),
    ensures
        mle::equal_sum(integers(), left, right, limit) == sums::sum_below(
            limit as nat,
            |i: int| weight(left, i) * weight(right, i),
        ),
{
    lemma_pow2_pos(left.len());
    let direct = |i: int| weight(left, i) * weight(right, i);
    if limit == pow2(left.len()) {
        lemma_equality_product(left, right, left.len());
        assert(left.take(left.len() as int) =~= left);
        assert(right.take(left.len() as int) =~= right);
    } else if limit > 0 {
        lemma_equal_states(left, right, limit, left.len());
        shifted_sums_are_displaced_pairs(left, right, limit, 0, 0);
        sums::lemma_sum_equal(
            limit as nat,
            direct,
            |i: int| weight(left, i) * weight(right, i + 0 + 0),
        );
    }
}

/// Over a whole domain the equality sum factors into coordinates.
proof fn lemma_equality_product(left: Seq<int>, right: Seq<int>, count: nat)
    requires
        left.len() == right.len(),
        count <= left.len(),
    ensures
        mle::equality_product(integers(), left, right, count) == sums::sum_below(
            pow2(count),
            |i: int|
                weight(left.take(count as int), i) * weight(right.take(count as int), i),
        ),
    decreases count,
{
    let l = left.take(count as int);
    let r = right.take(count as int);
    let term = |i: int| weight(l, i) * weight(r, i);
    if count == 0 {
        lemma2_to64();
        reveal_with_fuel(sums::sum_below, 2);
        assert(weight(l, 0) == 1 && weight(r, 0) == 1);
    } else {
        let before = (count - 1) as nat;
        let shorter_l = left.take(before as int);
        let shorter_r = right.take(before as int);
        let x = left[count - 1];
        let y = right[count - 1];
        lemma_equality_product(left, right, before);
        lemma_pow2_unfold(count);
        let inner = |i: int| weight(shorter_l, i) * weight(shorter_r, i);
        let both = (1 - x) * (1 - y) + x * y;
        assert(l.drop_last() =~= shorter_l);
        assert(r.drop_last() =~= shorter_r);
        lemma_pairwise_sum(pow2(before), term, |i: int| inner(i) * both);
        assert forall|i: int| 0 <= i < pow2(before) implies #[trigger] term(2 * i) + term(2 * i + 1)
            == inner(i) * both by {
            lemma_weight_unfold(l, 2 * i);
            lemma_weight_unfold(r, 2 * i);
            lemma_weight_unfold(l, 2 * i + 1);
            lemma_weight_unfold(r, 2 * i + 1);
            let a = weight(shorter_l, i);
            let b = weight(shorter_r, i);
            let u = 1 - x;
            let v = 1 - y;
            assert((a * u) * (b * v) == (a * b) * (u * v)) by (nonlinear_arith);
            assert((a * x) * (b * y) == (a * b) * (x * y)) by (nonlinear_arith);
            assert((a * b) * (u * v) + (a * b) * (x * y) == (a * b) * (u * v + x * y))
                by (nonlinear_arith);
        }
        lemma_pairwise_sum(pow2(before), term, |i: int| inner(i) * both);
        sums::lemma_sum_scale(pow2(before), both, inner);
        assert forall|i: int| #[trigger] inner(i) * both == both * inner(i) by {
            lemma_commute(inner(i), both);
        }
        sums::lemma_sum_equal(
            pow2(before),
            |i: int| inner(i) * both,
            |i: int| both * inner(i),
        );
        lemma_commute(both, sums::sum_below(pow2(before), inner));
    }
}

proof fn lemma_pairwise_sum(count: nat, term: spec_fn(int) -> int, paired: spec_fn(int) -> int)
    ensures
        (forall|i: int|
            0 <= i < count ==> #[trigger] term(2 * i) + term(2 * i + 1) == paired(i))
            ==> sums::sum_below(2 * count, term) == sums::sum_below(count, paired),
    decreases count,
{
    if count > 0 {
        lemma_pairwise_sum((count - 1) as nat, term, paired);
        let last = count - 1;
        assert(sums::sum_below(2 * count, term) == sums::sum_below((2 * count - 1) as nat, term)
            + term(2 * count - 1));
        assert(sums::sum_below((2 * count - 1) as nat, term) == sums::sum_below(
            (2 * count - 2) as nat,
            term,
        ) + term(2 * count - 2));
        if forall|i: int|
            0 <= i < count ==> #[trigger] term(2 * i) + term(2 * i + 1) == paired(i) {
            assert(term(2 * last) + term(2 * last + 1) == paired(last));
        }
    }
}

} // verus!
