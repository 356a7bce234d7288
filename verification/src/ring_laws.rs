//! Commutative rings, and polynomial identities: two expressions that agree at
//! all integer points agree in every commutative ring.

use vstd::prelude::*;

use crate::mle::ScalarOps;
use crate::mle_laws;
use crate::transfer_laws;

verus! {

#[verifier::opaque]
pub open spec fn sums_commute<S>(ops: ScalarOps<S>) -> bool {
    forall|a: S, b: S| #[trigger] (ops.sum)(a, b) == (ops.sum)(b, a)
}

#[verifier::opaque]
pub open spec fn sums_associate<S>(ops: ScalarOps<S>) -> bool {
    forall|a: S, b: S, c: S|
        #[trigger] (ops.sum)((ops.sum)(a, b), c) == (ops.sum)(a, (ops.sum)(b, c))
}

#[verifier::opaque]
pub open spec fn zero_is_neutral<S>(ops: ScalarOps<S>) -> bool {
    forall|a: S| #[trigger] (ops.sum)(ops.zero, a) == a
}

#[verifier::opaque]
pub open spec fn differences_restore<S>(ops: ScalarOps<S>) -> bool {
    forall|a: S, b: S| #[trigger] (ops.sum)((ops.difference)(a, b), b) == a
}

#[verifier::opaque]
pub open spec fn products_commute<S>(ops: ScalarOps<S>) -> bool {
    forall|a: S, b: S| #[trigger] (ops.product)(a, b) == (ops.product)(b, a)
}

#[verifier::opaque]
pub open spec fn products_associate<S>(ops: ScalarOps<S>) -> bool {
    forall|a: S, b: S, c: S|
        #[trigger] (ops.product)((ops.product)(a, b), c) == (ops.product)(a, (ops.product)(b, c))
}

#[verifier::opaque]
pub open spec fn one_is_neutral<S>(ops: ScalarOps<S>) -> bool {
    forall|a: S| #[trigger] (ops.product)(ops.one, a) == a
}

#[verifier::opaque]
pub open spec fn products_distribute<S>(ops: ScalarOps<S>) -> bool {
    forall|a: S, b: S, c: S|
        #[trigger] (ops.product)(a, (ops.sum)(b, c)) == (ops.sum)(
            (ops.product)(a, b),
            (ops.product)(a, c),
        )
}

/// The integers are mapped into the ring.
#[verifier::opaque]
pub open spec fn integers_embed<S>(ops: ScalarOps<S>) -> bool {
    &&& (ops.embed)(0) == ops.zero
    &&& (ops.embed)(1) == ops.one
    &&& forall|x: int, y: int|
        #[trigger] (ops.sum)((ops.embed)(x), (ops.embed)(y)) == (ops.embed)(x + y)
    &&& forall|x: int, y: int|
        #[trigger] (ops.product)((ops.embed)(x), (ops.embed)(y)) == (ops.embed)(x * y)
}

/// A commutative ring with an embedding of the integers.
pub open spec fn commutative_ring<S>(ops: ScalarOps<S>) -> bool {
    &&& sums_commute(ops)
    &&& sums_associate(ops)
    &&& zero_is_neutral(ops)
    &&& differences_restore(ops)
    &&& products_commute(ops)
    &&& products_associate(ops)
    &&& one_is_neutral(ops)
    &&& products_distribute(ops)
    &&& integers_embed(ops)
}

/// The integers are a commutative ring.
pub proof fn integers_are_a_ring()
    ensures
        commutative_ring(mle_laws::integers()),
{
    let ops = mle_laws::integers();
    assert(sums_commute(ops)) by {
        reveal(sums_commute);
    }
    assert(sums_associate(ops)) by {
        reveal(sums_associate);
    }
    assert(zero_is_neutral(ops)) by {
        reveal(zero_is_neutral);
    }
    assert(differences_restore(ops)) by {
        reveal(differences_restore);
    }
    assert(products_commute(ops)) by {
        reveal(products_commute);
        assert forall|a: int, b: int| #[trigger] (ops.product)(a, b) == (ops.product)(b, a) by {
            assert(a * b == b * a) by (nonlinear_arith);
        }
    }
    assert(products_associate(ops)) by {
        reveal(products_associate);
        assert forall|a: int, b: int, c: int| #[trigger]
            (ops.product)((ops.product)(a, b), c) == (ops.product)(a, (ops.product)(b, c)) by {
            assert((a * b) * c == a * (b * c)) by (nonlinear_arith);
        }
    }
    assert(one_is_neutral(ops)) by {
        reveal(one_is_neutral);
    }
    assert(products_distribute(ops)) by {
        reveal(products_distribute);
        assert forall|a: int, b: int, c: int| #[trigger]
            (ops.product)(a, (ops.sum)(b, c)) == (ops.sum)(
            (ops.product)(a, b),
            (ops.product)(a, c),
        ) by {
            assert(a * (b + c) == a * b + a * c) by (nonlinear_arith);
        }
    }
    assert(integers_embed(ops)) by {
        reveal(integers_embed);
    }
}

proof fn lemma_sum_commutes<S>(ops: ScalarOps<S>, a: S, b: S)
    requires
        commutative_ring(ops),
    ensures
        (ops.sum)(a, b) == (ops.sum)(b, a),
{
    reveal(sums_commute);
}

proof fn lemma_sum_associates<S>(ops: ScalarOps<S>, a: S, b: S, c: S)
    requires
        commutative_ring(ops),
    ensures
        (ops.sum)((ops.sum)(a, b), c) == (ops.sum)(a, (ops.sum)(b, c)),
{
    reveal(sums_associate);
}

pub proof fn lemma_sum_zero<S>(ops: ScalarOps<S>, a: S)
    requires
        commutative_ring(ops),
    ensures
        (ops.sum)(ops.zero, a) == a,
        (ops.sum)(a, ops.zero) == a,
{
    lemma_sum_commutes(ops, a, ops.zero);
    reveal(zero_is_neutral);
}

pub proof fn lemma_difference_restores<S>(ops: ScalarOps<S>, a: S, b: S)
    requires
        commutative_ring(ops),
    ensures
        (ops.sum)((ops.difference)(a, b), b) == a,
{
    reveal(differences_restore);
}

pub proof fn lemma_product_commutes<S>(ops: ScalarOps<S>, a: S, b: S)
    requires
        commutative_ring(ops),
    ensures
        (ops.product)(a, b) == (ops.product)(b, a),
{
    reveal(products_commute);
}

proof fn lemma_product_associates<S>(ops: ScalarOps<S>, a: S, b: S, c: S)
    requires
        commutative_ring(ops),
    ensures
        (ops.product)((ops.product)(a, b), c) == (ops.product)(a, (ops.product)(b, c)),
{
    reveal(products_associate);
}

pub proof fn lemma_product_one<S>(ops: ScalarOps<S>, a: S)
    requires
        commutative_ring(ops),
    ensures
        (ops.product)(ops.one, a) == a,
{
    reveal(one_is_neutral);
}

proof fn lemma_distributes<S>(ops: ScalarOps<S>, a: S, b: S, c: S)
    requires
        commutative_ring(ops),
    ensures
        (ops.product)(a, (ops.sum)(b, c)) == (ops.sum)((ops.product)(a, b), (ops.product)(a, c)),
        (ops.product)((ops.sum)(b, c), a) == (ops.sum)((ops.product)(b, a), (ops.product)(c, a)),
{
    lemma_product_commutes(ops, a, (ops.sum)(b, c));
    lemma_product_commutes(ops, a, b);
    lemma_product_commutes(ops, a, c);
    reveal(products_distribute);
}

pub proof fn lemma_embed<S>(ops: ScalarOps<S>, x: int, y: int)
    requires
        commutative_ring(ops),
    ensures
        (ops.embed)(0) == ops.zero,
        (ops.embed)(1) == ops.one,
        (ops.sum)((ops.embed)(x), (ops.embed)(y)) == (ops.embed)(x + y),
        (ops.product)((ops.embed)(x), (ops.embed)(y)) == (ops.embed)(x * y),
{
    reveal(integers_embed);
}

/// A summand can be cancelled.
proof fn lemma_cancels<S>(ops: ScalarOps<S>, a: S, b: S, c: S)
    requires
        commutative_ring(ops),
        (ops.sum)(a, c) == (ops.sum)(b, c),
    ensures
        a == b,
{
    let minus = (ops.difference)(ops.zero, c);
    lemma_difference_restores(ops, ops.zero, c);
    lemma_sum_commutes(ops, minus, c);
    lemma_sum_associates(ops, a, c, minus);
    lemma_sum_associates(ops, b, c, minus);
    lemma_sum_zero(ops, a);
    lemma_sum_zero(ops, b);
}

pub proof fn lemma_product_zero<S>(ops: ScalarOps<S>, a: S)
    requires
        commutative_ring(ops),
    ensures
        (ops.product)(a, ops.zero) == ops.zero,
        (ops.product)(ops.zero, a) == ops.zero,
{
    let nothing = (ops.product)(a, ops.zero);
    lemma_sum_zero(ops, ops.zero);
    lemma_distributes(ops, a, ops.zero, ops.zero);
    lemma_sum_zero(ops, nothing);
    lemma_cancels(ops, nothing, ops.zero, nothing);
    lemma_product_commutes(ops, a, ops.zero);
}

/// A difference adds the product with minus one.
proof fn lemma_difference_is_a_sum<S>(ops: ScalarOps<S>, a: S, b: S)
    requires
        commutative_ring(ops),
    ensures
        (ops.difference)(a, b) == (ops.sum)(a, (ops.product)((ops.embed)(-1), b)),
        (ops.sum)((ops.product)((ops.embed)(-1), b), b) == ops.zero,
{
    let minus = (ops.product)((ops.embed)(-1), b);
    lemma_embed(ops, -1, 1);
    lemma_distributes(ops, b, (ops.embed)(-1), ops.one);
    lemma_product_one(ops, b);
    lemma_product_zero(ops, b);
    assert((ops.sum)(minus, b) == ops.zero);
    lemma_sum_associates(ops, a, minus, b);
    lemma_sum_zero(ops, a);
    lemma_difference_restores(ops, a, b);
    lemma_cancels(ops, (ops.difference)(a, b), (ops.sum)(a, minus), b);
}

/// Nothing is left of a scalar's difference from itself.
pub proof fn lemma_difference_vanishes<S>(ops: ScalarOps<S>, a: S)
    requires
        commutative_ring(ops),
    ensures
        (ops.difference)(a, a) == ops.zero,
{
    lemma_difference_restores(ops, a, a);
    lemma_sum_zero(ops, a);
    lemma_cancels(ops, (ops.difference)(a, a), ops.zero, a);
}

/// A polynomial with integer coefficients, as it is computed.
pub enum Expression {
    Constant { value: int },
    Variable { index: nat },
    Sum { left: Box<Expression>, right: Box<Expression> },
    Product { left: Box<Expression>, right: Box<Expression> },
}

pub open spec fn constant(value: int) -> Expression {
    Expression::Constant { value }
}

pub open spec fn variable(index: nat) -> Expression {
    Expression::Variable { index }
}

pub open spec fn sum_of(left: Expression, right: Expression) -> Expression {
    Expression::Sum { left: Box::new(left), right: Box::new(right) }
}

pub open spec fn product_of(left: Expression, right: Expression) -> Expression {
    Expression::Product { left: Box::new(left), right: Box::new(right) }
}

/// Only variables below a bound occur.
pub open spec fn within(expression: Expression, bound: nat) -> bool
    decreases expression,
{
    match expression {
        Expression::Constant { .. } => true,
        Expression::Variable { index } => index < bound,
        Expression::Sum { left, right } => within(*left, bound) && within(*right, bound),
        Expression::Product { left, right } => within(*left, bound) && within(*right, bound),
    }
}

/// The value of an expression at a point.
pub open spec fn value_at<S>(ops: ScalarOps<S>, expression: Expression, point: Seq<S>) -> S
    decreases expression,
{
    match expression {
        Expression::Constant { value } => (ops.embed)(value),
        Expression::Variable { index } => point[index as int],
        Expression::Sum { left, right } => (ops.sum)(
            value_at(ops, *left, point),
            value_at(ops, *right, point),
        ),
        Expression::Product { left, right } => (ops.product)(
            value_at(ops, *left, point),
            value_at(ops, *right, point),
        ),
    }
}

/// Expressions as scalars.
pub open spec fn expressions() -> ScalarOps<Expression> {
    ScalarOps {
        zero: constant(0),
        one: constant(1),
        embed: |value: int| constant(value),
        sum: |left: Expression, right: Expression| sum_of(left, right),
        difference: |left: Expression, right: Expression|
            sum_of(left, product_of(constant(-1), right)),
        product: |left: Expression, right: Expression| product_of(left, right),
    }
}

/// An expression in the variables of a point has a value there.
pub open spec fn stands_for<S>(ops: ScalarOps<S>, point: Seq<S>) -> spec_fn(Expression, S) -> bool {
    |expression: Expression, value: S|
        within(expression, point.len()) && value_at(ops, expression, point) == value
}

pub proof fn lemma_values_keep<S>(ops: ScalarOps<S>, point: Seq<S>)
    requires
        commutative_ring(ops),
    ensures
        transfer_laws::keeps(expressions(), ops, stands_for(ops, point)),
{
    reveal(transfer_laws::keeps);
    let related = stands_for(ops, point);
    let free = expressions();
    lemma_embed(ops, 0, 0);
    assert forall|a: Expression, b: Expression, c: S, d: S|
        related(a, c) && related(b, d) implies related(
        #[trigger] (free.difference)(a, b),
        #[trigger] (ops.difference)(c, d),
    ) by {
        lemma_difference_is_a_sum(ops, c, d);
        let minus = product_of(constant(-1), b);
        assert(value_at(ops, constant(-1), point) == (ops.embed)(-1));
        assert(value_at(ops, minus, point) == (ops.product)((ops.embed)(-1), d));
        assert(within(constant(-1), point.len()));
        assert(within(minus, point.len()));
    }
}

/// An expression in fewer variables does not see the other coordinates.
proof fn lemma_prefix_value<S>(ops: ScalarOps<S>, expression: Expression, point: Seq<S>, bound: nat)
    requires
        within(expression, bound),
        bound <= point.len(),
    ensures
        value_at(ops, expression, point) == value_at(ops, expression, point.take(bound as int)),
    decreases expression,
{
    match expression {
        Expression::Sum { left, right } => {
            lemma_prefix_value(ops, *left, point, bound);
            lemma_prefix_value(ops, *right, point, bound);
        },
        Expression::Product { left, right } => {
            lemma_prefix_value(ops, *left, point, bound);
            lemma_prefix_value(ops, *right, point, bound);
        },
        _ => {},
    }
}

/// An expression without variables is an integer.
proof fn lemma_closed_value<S>(ops: ScalarOps<S>, expression: Expression, point: Seq<S>)
    requires
        commutative_ring(ops),
        within(expression, 0),
    ensures
        value_at(ops, expression, point) == (ops.embed)(
            value_at(mle_laws::integers(), expression, Seq::<int>::empty()),
        ),
    decreases expression,
{
    let integers = mle_laws::integers();
    let nowhere = Seq::<int>::empty();
    match expression {
        Expression::Sum { left, right } => {
            lemma_closed_value(ops, *left, point);
            lemma_closed_value(ops, *right, point);
            lemma_embed(
                ops,
                value_at(integers, *left, nowhere),
                value_at(integers, *right, nowhere),
            );
        },
        Expression::Product { left, right } => {
            lemma_closed_value(ops, *left, point);
            lemma_closed_value(ops, *right, point);
            lemma_embed(
                ops,
                value_at(integers, *left, nowhere),
                value_at(integers, *right, nowhere),
            );
        },
        _ => {},
    }
}

/// The value of a polynomial in one more variable, by its coefficients.
spec fn horner<S>(ops: ScalarOps<S>, coefficients: Seq<Expression>, x: S, point: Seq<S>) -> S
    decreases coefficients.len(),
{
    if coefficients.len() == 0 {
        ops.zero
    } else {
        (ops.sum)(
            value_at(ops, coefficients[0], point),
            (ops.product)(x, horner(ops, coefficients.skip(1), x, point)),
        )
    }
}

spec fn added(left: Seq<Expression>, right: Seq<Expression>) -> Seq<Expression>
    decreases left.len(),
{
    if left.len() == 0 {
        right
    } else if right.len() == 0 {
        left
    } else {
        seq![sum_of(left[0], right[0])] + added(left.skip(1), right.skip(1))
    }
}

spec fn scaled(factor: Expression, coefficients: Seq<Expression>) -> Seq<Expression>
    decreases coefficients.len(),
{
    if coefficients.len() == 0 {
        coefficients
    } else {
        seq![product_of(factor, coefficients[0])] + scaled(factor, coefficients.skip(1))
    }
}

spec fn multiplied(left: Seq<Expression>, right: Seq<Expression>) -> Seq<Expression>
    decreases left.len(),
{
    if left.len() == 0 {
        left
    } else {
        added(scaled(left[0], right), seq![constant(0)] + multiplied(left.skip(1), right))
    }
}

/// The coefficients of an expression in one of its variables.
spec fn coefficients_of(expression: Expression, index: nat) -> Seq<Expression>
    decreases expression,
{
    match expression {
        Expression::Constant { .. } => seq![expression],
        Expression::Variable { index: named } => if named == index {
            seq![constant(0), constant(1)]
        } else {
            seq![expression]
        },
        Expression::Sum { left, right } => added(
            coefficients_of(*left, index),
            coefficients_of(*right, index),
        ),
        Expression::Product { left, right } => multiplied(
            coefficients_of(*left, index),
            coefficients_of(*right, index),
        ),
    }
}

spec fn all_within(coefficients: Seq<Expression>, bound: nat) -> bool {
    forall|i: int| 0 <= i < coefficients.len() ==> within(#[trigger] coefficients[i], bound)
}

proof fn lemma_all_within_first(first: Expression, rest: Seq<Expression>, bound: nat)
    requires
        within(first, bound),
        all_within(rest, bound),
    ensures
        all_within(seq![first] + rest, bound),
{
    let joined = seq![first] + rest;
    assert forall|i: int| 0 <= i < joined.len() implies within(#[trigger] joined[i], bound) by {
        if i > 0 {
            assert(joined[i] == rest[i - 1]);
        }
    }
}

proof fn lemma_added_within(left: Seq<Expression>, right: Seq<Expression>, bound: nat)
    requires
        all_within(left, bound),
        all_within(right, bound),
    ensures
        all_within(added(left, right), bound),
    decreases left.len(),
{
    if left.len() > 0 && right.len() > 0 {
        lemma_added_within(left.skip(1), right.skip(1), bound);
        lemma_all_within_first(
            sum_of(left[0], right[0]),
            added(left.skip(1), right.skip(1)),
            bound,
        );
    }
}

proof fn lemma_scaled_within(factor: Expression, coefficients: Seq<Expression>, bound: nat)
    requires
        within(factor, bound),
        all_within(coefficients, bound),
    ensures
        all_within(scaled(factor, coefficients), bound),
    decreases coefficients.len(),
{
    if coefficients.len() > 0 {
        lemma_scaled_within(factor, coefficients.skip(1), bound);
        lemma_all_within_first(
            product_of(factor, coefficients[0]),
            scaled(factor, coefficients.skip(1)),
            bound,
        );
    }
}

proof fn lemma_multiplied_within(left: Seq<Expression>, right: Seq<Expression>, bound: nat)
    requires
        all_within(left, bound),
        all_within(right, bound),
    ensures
        all_within(multiplied(left, right), bound),
    decreases left.len(),
{
    if left.len() > 0 {
        let rest = multiplied(left.skip(1), right);
        lemma_multiplied_within(left.skip(1), right, bound);
        lemma_scaled_within(left[0], right, bound);
        lemma_all_within_first(constant(0), rest, bound);
        lemma_added_within(scaled(left[0], right), seq![constant(0)] + rest, bound);
    }
}

proof fn lemma_coefficients_within(expression: Expression, index: nat)
    requires
        within(expression, index + 1),
    ensures
        all_within(coefficients_of(expression, index), index),
    decreases expression,
{
    match expression {
        Expression::Sum { left, right } => {
            lemma_coefficients_within(*left, index);
            lemma_coefficients_within(*right, index);
            lemma_added_within(
                coefficients_of(*left, index),
                coefficients_of(*right, index),
                index,
            );
        },
        Expression::Product { left, right } => {
            lemma_coefficients_within(*left, index);
            lemma_coefficients_within(*right, index);
            lemma_multiplied_within(
                coefficients_of(*left, index),
                coefficients_of(*right, index),
                index,
            );
        },
        _ => {},
    }
}

proof fn lemma_horner_first<S>(
    ops: ScalarOps<S>,
    first: Expression,
    rest: Seq<Expression>,
    x: S,
    point: Seq<S>,
)
    ensures
        horner(ops, seq![first] + rest, x, point) == (ops.sum)(
            value_at(ops, first, point),
            (ops.product)(x, horner(ops, rest, x, point)),
        ),
{
    let joined = seq![first] + rest;
    assert(joined.skip(1) =~= rest);
    assert(joined[0] == first);
}

/// `(a + x b) + (c + x d) == (a + c) + x (b + d)`.
proof fn lemma_adds_by_powers<S>(ops: ScalarOps<S>, x: S, a: S, b: S, c: S, d: S)
    requires
        commutative_ring(ops),
    ensures
        (ops.sum)(
            (ops.sum)(a, (ops.product)(x, b)),
            (ops.sum)(c, (ops.product)(x, d)),
        ) == (ops.sum)((ops.sum)(a, c), (ops.product)(x, (ops.sum)(b, d))),
{
    let xb = (ops.product)(x, b);
    let xd = (ops.product)(x, d);
    lemma_distributes(ops, x, b, d);
    lemma_sum_associates(ops, a, xb, (ops.sum)(c, xd));
    lemma_sum_associates(ops, xb, c, xd);
    lemma_sum_commutes(ops, xb, c);
    lemma_sum_associates(ops, c, xb, xd);
    lemma_sum_associates(ops, a, c, (ops.sum)(xb, xd));
}

proof fn lemma_horner_added<S>(
    ops: ScalarOps<S>,
    left: Seq<Expression>,
    right: Seq<Expression>,
    x: S,
    point: Seq<S>,
)
    requires
        commutative_ring(ops),
    ensures
        horner(ops, added(left, right), x, point) == (ops.sum)(
            horner(ops, left, x, point),
            horner(ops, right, x, point),
        ),
    decreases left.len(),
{
    if left.len() == 0 {
        lemma_sum_zero(ops, horner(ops, right, x, point));
    } else if right.len() == 0 {
        lemma_sum_zero(ops, horner(ops, left, x, point));
    } else {
        let rest = added(left.skip(1), right.skip(1));
        lemma_horner_added(ops, left.skip(1), right.skip(1), x, point);
        lemma_horner_first(ops, sum_of(left[0], right[0]), rest, x, point);
        lemma_adds_by_powers(
            ops,
            x,
            value_at(ops, left[0], point),
            horner(ops, left.skip(1), x, point),
            value_at(ops, right[0], point),
            horner(ops, right.skip(1), x, point),
        );
    }
}

proof fn lemma_horner_scaled<S>(
    ops: ScalarOps<S>,
    factor: Expression,
    coefficients: Seq<Expression>,
    x: S,
    point: Seq<S>,
)
    requires
        commutative_ring(ops),
    ensures
        horner(ops, scaled(factor, coefficients), x, point) == (ops.product)(
            value_at(ops, factor, point),
            horner(ops, coefficients, x, point),
        ),
    decreases coefficients.len(),
{
    let f = value_at(ops, factor, point);
    if coefficients.len() == 0 {
        lemma_product_zero(ops, f);
    } else {
        let tail = coefficients.skip(1);
        let c = value_at(ops, coefficients[0], point);
        let h = horner(ops, tail, x, point);
        lemma_horner_scaled(ops, factor, tail, x, point);
        lemma_horner_first(
            ops,
            product_of(factor, coefficients[0]),
            scaled(factor, tail),
            x,
            point,
        );
        lemma_distributes(ops, f, c, (ops.product)(x, h));
        lemma_product_associates(ops, f, x, h);
        lemma_product_commutes(ops, f, x);
        lemma_product_associates(ops, x, f, h);
    }
}

proof fn lemma_horner_multiplied<S>(
    ops: ScalarOps<S>,
    left: Seq<Expression>,
    right: Seq<Expression>,
    x: S,
    point: Seq<S>,
)
    requires
        commutative_ring(ops),
    ensures
        horner(ops, multiplied(left, right), x, point) == (ops.product)(
            horner(ops, left, x, point),
            horner(ops, right, x, point),
        ),
    decreases left.len(),
{
    let r = horner(ops, right, x, point);
    if left.len() == 0 {
        lemma_product_zero(ops, r);
    } else {
        let tail = left.skip(1);
        let c = value_at(ops, left[0], point);
        let h = horner(ops, tail, x, point);
        let rest = multiplied(tail, right);
        lemma_horner_multiplied(ops, tail, right, x, point);
        lemma_horner_scaled(ops, left[0], right, x, point);
        lemma_horner_first(ops, constant(0), rest, x, point);
        lemma_embed(ops, 0, 0);
        lemma_sum_zero(ops, (ops.product)(x, horner(ops, rest, x, point)));
        lemma_horner_added(
            ops,
            scaled(left[0], right),
            seq![constant(0)] + rest,
            x,
            point,
        );
        lemma_distributes(ops, r, c, (ops.product)(x, h));
        lemma_product_associates(ops, x, h, r);
    }
}

/// An expression is the polynomial of its coefficients.
proof fn lemma_horner_value<S>(
    ops: ScalarOps<S>,
    expression: Expression,
    index: nat,
    point: Seq<S>,
)
    requires
        commutative_ring(ops),
    ensures
        horner(ops, coefficients_of(expression, index), point[index as int], point) == value_at(
            ops,
            expression,
            point,
        ),
    decreases expression,
{
    let x = point[index as int];
    match expression {
        Expression::Constant { .. } => {
            lemma_horner_constant(ops, expression, x, point);
        },
        Expression::Variable { index: named } => {
            if named == index {
                let linear = seq![constant(0), constant(1)];
                assert(linear =~= seq![constant(0)] + seq![constant(1)]);
                lemma_horner_first(ops, constant(0), seq![constant(1)], x, point);
                lemma_horner_constant(ops, constant(1), x, point);
                lemma_embed(ops, 0, 0);
                lemma_product_commutes(ops, x, ops.one);
                lemma_product_one(ops, x);
                lemma_sum_zero(ops, x);
            } else {
                lemma_horner_constant(ops, expression, x, point);
            }
        },
        Expression::Sum { left, right } => {
            lemma_horner_value(ops, *left, index, point);
            lemma_horner_value(ops, *right, index, point);
            lemma_horner_added(
                ops,
                coefficients_of(*left, index),
                coefficients_of(*right, index),
                x,
                point,
            );
        },
        Expression::Product { left, right } => {
            lemma_horner_value(ops, *left, index, point);
            lemma_horner_value(ops, *right, index, point);
            lemma_horner_multiplied(
                ops,
                coefficients_of(*left, index),
                coefficients_of(*right, index),
                x,
                point,
            );
        },
    }
}

proof fn lemma_horner_constant<S>(
    ops: ScalarOps<S>,
    expression: Expression,
    x: S,
    point: Seq<S>,
)
    requires
        commutative_ring(ops),
    ensures
        horner(ops, seq![expression], x, point) == value_at(ops, expression, point),
{
    let nothing = Seq::<Expression>::empty();
    assert(seq![expression] =~= seq![expression] + nothing);
    lemma_horner_first(ops, expression, nothing, x, point);
    assert(horner(ops, nothing, x, point) == ops.zero);
    lemma_product_zero(ops, x);
    lemma_sum_zero(ops, value_at(ops, expression, point));
}

/// Coefficients in fewer variables do not see the other coordinates.
proof fn lemma_horner_prefix<S>(
    ops: ScalarOps<S>,
    coefficients: Seq<Expression>,
    x: S,
    point: Seq<S>,
    bound: nat,
)
    requires
        all_within(coefficients, bound),
        bound <= point.len(),
    ensures
        horner(ops, coefficients, x, point) == horner(
            ops,
            coefficients,
            x,
            point.take(bound as int),
        ),
    decreases coefficients.len(),
{
    if coefficients.len() > 0 {
        lemma_prefix_value(ops, coefficients[0], point, bound);
        lemma_horner_prefix(ops, coefficients.skip(1), x, point, bound);
    }
}

/// An integer polynomial that vanishes at all positive arguments has no
/// coefficient but zero.
proof fn lemma_no_coefficient(coefficients: Seq<Expression>, point: Seq<int>, at: int)
    requires
        forall|t: int|
            t >= 1 ==> #[trigger] horner(mle_laws::integers(), coefficients, t, point) == 0,
        0 <= at < coefficients.len(),
    ensures
        value_at(mle_laws::integers(), coefficients[at], point) == 0,
    decreases coefficients.len(),
{
    let integers = mle_laws::integers();
    let first = value_at(integers, coefficients[0], point);
    let tail = coefficients.skip(1);
    let t = if first < 0 {
        1 - first
    } else {
        first + 1
    };
    let h = horner(integers, tail, t, point);
    assert(horner(integers, coefficients, t, point) == first + t * h);
    assert(h >= 0 ==> t * h >= 0) by (nonlinear_arith)
        requires
            t >= 1,
    ;
    assert(h <= -1 ==> t * h <= -t) by (nonlinear_arith)
        requires
            t >= 1,
    ;
    assert(h >= 1 ==> t * h >= t) by (nonlinear_arith)
        requires
            t >= 1,
    ;
    assert(h == 0 ==> t * h == 0) by (nonlinear_arith);
    assert(first == 0);
    if at > 0 {
        assert forall|t: int| t >= 1 implies #[trigger] horner(integers, tail, t, point) == 0 by {
            let h = horner(integers, tail, t, point);
            assert(horner(integers, coefficients, t, point) == first + t * h);
            assert(h == 0) by (nonlinear_arith)
                requires
                    t * h == 0,
                    t >= 1,
            ;
        }
        lemma_no_coefficient(tail, point, at - 1);
        assert(tail[at - 1] == coefficients[at]);
    }
}

/// A polynomial without coefficients vanishes.
proof fn lemma_horner_vanishes<S>(
    ops: ScalarOps<S>,
    coefficients: Seq<Expression>,
    x: S,
    point: Seq<S>,
)
    requires
        commutative_ring(ops),
        forall|i: int|
            0 <= i < coefficients.len() ==> value_at(ops, #[trigger] coefficients[i], point)
                == ops.zero,
    ensures
        horner(ops, coefficients, x, point) == ops.zero,
    decreases coefficients.len(),
{
    if coefficients.len() > 0 {
        let tail = coefficients.skip(1);
        assert forall|i: int| 0 <= i < tail.len() implies value_at(ops, #[trigger] tail[i], point)
            == ops.zero by {
            assert(tail[i] == coefficients[i + 1]);
        }
        lemma_horner_vanishes(ops, tail, x, point);
        lemma_product_zero(ops, x);
        lemma_sum_zero(ops, ops.zero);
    }
}

/// An expression that vanishes at all integer points vanishes everywhere.
proof fn lemma_vanishes<S>(ops: ScalarOps<S>, expression: Expression, point: Seq<S>)
    requires
        commutative_ring(ops),
        within(expression, point.len()),
        forall|integers: Seq<int>|
            integers.len() == point.len() ==> #[trigger] value_at(
                mle_laws::integers(),
                expression,
                integers,
            ) == 0,
    ensures
        value_at(ops, expression, point) == ops.zero,
    decreases point.len(),
{
    let whole = mle_laws::integers();
    if point.len() == 0 {
        lemma_closed_value(ops, expression, point);
        lemma_embed(ops, 0, 0);
        assert(value_at(whole, expression, Seq::<int>::empty()) == 0);
    } else {
        let index = (point.len() - 1) as nat;
        let coefficients = coefficients_of(expression, index);
        let fewer = point.take(index as int);
        integers_are_a_ring();
        lemma_coefficients_within(expression, index);
        assert forall|at: int| 0 <= at < coefficients.len() implies value_at(
            ops,
            #[trigger] coefficients[at],
            point,
        ) == ops.zero by {
            assert forall|integers: Seq<int>| integers.len() == fewer.len() implies #[trigger]
                value_at(whole, coefficients[at], integers) == 0 by {
                assert forall|t: int| t >= 1 implies #[trigger] horner(
                    whole,
                    coefficients,
                    t,
                    integers,
                ) == 0 by {
                    let longer = integers.push(t);
                    assert(longer.take(index as int) =~= integers);
                    assert(value_at(whole, expression, longer) == 0);
                    lemma_horner_value(whole, expression, index, longer);
                    lemma_horner_prefix(whole, coefficients, t, longer, index);
                }
                lemma_no_coefficient(coefficients, integers, at);
            }
            lemma_vanishes(ops, coefficients[at], fewer);
            lemma_prefix_value(ops, coefficients[at], point, index);
        }
        lemma_horner_vanishes(ops, coefficients, point[index as int], point);
        lemma_horner_value(ops, expression, index, point);
    }
}

/// Two expressions that agree at all integer points agree at every point of
/// every commutative ring.
pub proof fn integer_identities_hold_in_every_ring<S>(
    ops: ScalarOps<S>,
    left: Expression,
    right: Expression,
    point: Seq<S>,
)
    requires
        commutative_ring(ops),
        within(left, point.len()),
        within(right, point.len()),
        forall|integers: Seq<int>|
            integers.len() == point.len() ==> #[trigger] value_at(
                mle_laws::integers(),
                left,
                integers,
            ) == value_at(mle_laws::integers(), right, integers),
    ensures
        value_at(ops, left, point) == value_at(ops, right, point),
{
    let whole = mle_laws::integers();
    let minus = product_of(constant(-1), right);
    let gap = sum_of(left, minus);
    assert(within(constant(-1), point.len()));
    assert(within(minus, point.len()));
    assert forall|integers: Seq<int>| integers.len() == point.len() implies #[trigger] value_at(
        whole,
        gap,
        integers,
    ) == 0 by {
        assert(value_at(whole, left, integers) == value_at(whole, right, integers));
        assert(value_at(whole, constant(-1), integers) == -1);
        assert(value_at(whole, minus, integers) == -1 * value_at(whole, right, integers));
    }
    lemma_vanishes(ops, gap, point);
    let a = value_at(ops, left, point);
    let b = value_at(ops, right, point);
    let m = value_at(ops, minus, point);
    assert(value_at(ops, constant(-1), point) == (ops.embed)(-1));
    lemma_difference_is_a_sum(ops, a, b);
    lemma_sum_associates(ops, a, m, b);
    lemma_sum_zero(ops, a);
    lemma_sum_zero(ops, b);
}

} // verus!
