//! Evaluation in related scalars gives related values. For scalars that stand
//! for residues this makes every evaluation the complete scan, reduced.

use vstd::prelude::*;

use crate::evaluation;
use crate::evaluation::{EdgeFactors, PatternSplit};
use crate::evaluator;
use crate::generator::RhsModel;
use crate::matrix::{EdgeModel, MatrixModel};
use crate::mle;
use crate::mle::{CarryStates, ScalarOps};
use crate::mle_laws;
use crate::powers;
use crate::scan_laws;
use crate::sums;

verus! {

/// A relation between two scalar types that every operation keeps.
#[verifier::opaque]
pub open spec fn keeps<S, T>(
    left: ScalarOps<S>,
    right: ScalarOps<T>,
    related: spec_fn(S, T) -> bool,
) -> bool {
    &&& related(left.zero, right.zero)
    &&& related(left.one, right.one)
    &&& forall|value: int| related(#[trigger] (left.embed)(value), (right.embed)(value))
    &&& forall|a: S, b: S, c: T, d: T|
        related(a, c) && related(b, d) ==> related(
            #[trigger] (left.sum)(a, b),
            #[trigger] (right.sum)(c, d),
        )
    &&& forall|a: S, b: S, c: T, d: T|
        related(a, c) && related(b, d) ==> related(
            #[trigger] (left.difference)(a, b),
            #[trigger] (right.difference)(c, d),
        )
    &&& forall|a: S, b: S, c: T, d: T|
        related(a, c) && related(b, d) ==> related(
            #[trigger] (left.product)(a, b),
            #[trigger] (right.product)(c, d),
        )
}

/// Two points whose coordinates are related one by one.
pub open spec fn points<S, T>(
    related: spec_fn(S, T) -> bool,
    left: Seq<S>,
    right: Seq<T>,
) -> bool {
    &&& left.len() == right.len()
    &&& forall|i: int| 0 <= i < left.len() ==> related(#[trigger] left[i], right[i])
}

pub proof fn lemma_constants<S, T>(
    left: ScalarOps<S>,
    right: ScalarOps<T>,
    related: spec_fn(S, T) -> bool,
    value: int,
)
    requires
        keeps(left, right, related),
    ensures
        related(left.zero, right.zero),
        related(left.one, right.one),
        related((left.embed)(value), (right.embed)(value)),
{
    reveal(keeps);
}

pub proof fn lemma_sum<S, T>(
    left: ScalarOps<S>,
    right: ScalarOps<T>,
    related: spec_fn(S, T) -> bool,
    a: S,
    b: S,
    c: T,
    d: T,
)
    requires
        keeps(left, right, related),
        related(a, c),
        related(b, d),
    ensures
        related((left.sum)(a, b), (right.sum)(c, d)),
{
    reveal(keeps);
}

proof fn lemma_difference<S, T>(
    left: ScalarOps<S>,
    right: ScalarOps<T>,
    related: spec_fn(S, T) -> bool,
    a: S,
    b: S,
    c: T,
    d: T,
)
    requires
        keeps(left, right, related),
        related(a, c),
        related(b, d),
    ensures
        related((left.difference)(a, b), (right.difference)(c, d)),
{
    reveal(keeps);
}

pub proof fn lemma_product<S, T>(
    left: ScalarOps<S>,
    right: ScalarOps<T>,
    related: spec_fn(S, T) -> bool,
    a: S,
    b: S,
    c: T,
    d: T,
)
    requires
        keeps(left, right, related),
        related(a, c),
        related(b, d),
    ensures
        related((left.product)(a, b), (right.product)(c, d)),
{
    reveal(keeps);
}

proof fn lemma_bit_factor<S, T>(
    left: ScalarOps<S>,
    right: ScalarOps<T>,
    related: spec_fn(S, T) -> bool,
    a: S,
    c: T,
    bit: int,
)
    requires
        keeps(left, right, related),
        related(a, c),
    ensures
        related(mle::bit_factor(left, a, bit), mle::bit_factor(right, c, bit)),
{
    lemma_constants(left, right, related, 0);
    lemma_difference(left, right, related, left.one, a, right.one, c);
}

proof fn lemma_parts<S, T>(
    related: spec_fn(S, T) -> bool,
    left: Seq<S>,
    right: Seq<T>,
    bits: nat,
)
    requires
        points(related, left, right),
        bits <= left.len(),
    ensures
        points(related, evaluation::high_part(left, bits), evaluation::high_part(right, bits)),
        points(related, evaluation::low_part(left, bits), evaluation::low_part(right, bits)),
        evaluation::high_part(left, bits).len() == left.len() - bits,
        evaluation::low_part(left, bits).len() == bits,
{
    assert forall|i: int| 0 <= i < bits implies related(
        #[trigger] evaluation::low_part(left, bits)[i],
        evaluation::low_part(right, bits)[i],
    ) by {
        assert(evaluation::low_part(left, bits)[i] == left[left.len() - bits + i]);
    }
}

pub proof fn lemma_basis<S, T>(
    left: ScalarOps<S>,
    right: ScalarOps<T>,
    related: spec_fn(S, T) -> bool,
    p: Seq<S>,
    q: Seq<T>,
    index: int,
)
    requires
        keeps(left, right, related),
        points(related, p, q),
    ensures
        related(mle::basis(left, p, index), mle::basis(right, q, index)),
    decreases p.len(),
{
    lemma_constants(left, right, related, 0);
    if p.len() > 0 {
        lemma_basis(left, right, related, p.drop_last(), q.drop_last(), index / 2);
        lemma_bit_factor(left, right, related, p.last(), q.last(), index % 2);
        lemma_product(
            left,
            right,
            related,
            mle::basis(left, p.drop_last(), index / 2),
            mle::bit_factor(left, p.last(), index % 2),
            mle::basis(right, q.drop_last(), index / 2),
            mle::bit_factor(right, q.last(), index % 2),
        );
    }
}

/// Both states are related.
spec fn state_pair<S, T>(related: spec_fn(S, T) -> bool, a: (S, S), c: (T, T)) -> bool {
    related(a.0, c.0) && related(a.1, c.1)
}

proof fn lemma_deposit<S, T>(
    left: ScalarOps<S>,
    right: ScalarOps<T>,
    related: spec_fn(S, T) -> bool,
    a: (S, S),
    c: (T, T),
    at: int,
    term: S,
    other: T,
)
    requires
        keeps(left, right, related),
        state_pair(related, a, c),
        related(term, other),
    ensures
        state_pair(
            related,
            mle::deposit(left, a, at, term),
            mle::deposit(right, c, at, other),
        ),
{
    if at == 0 {
        lemma_sum(left, right, related, a.0, term, c.0, other);
    } else {
        lemma_sum(left, right, related, a.1, term, c.1, other);
    }
}

proof fn lemma_compare_step<S, T>(
    left: ScalarOps<S>,
    right: ScalarOps<T>,
    related: spec_fn(S, T) -> bool,
    a: (S, S),
    c: (T, T),
    limit_bit: int,
    zero_a: S,
    one_a: S,
    zero_c: T,
    one_c: T,
)
    requires
        keeps(left, right, related),
        state_pair(related, a, c),
        related(zero_a, zero_c),
        related(one_a, one_c),
    ensures
        state_pair(
            related,
            mle::compare_step(left, a, limit_bit, zero_a, one_a),
            mle::compare_step(right, c, limit_bit, zero_c, one_c),
        ),
{
    lemma_constants(left, right, related, 0);
    let w = (left.product)(a.0, zero_a);
    let x = (left.product)(a.0, one_a);
    let y = (left.product)(a.1, zero_a);
    let z = (left.product)(a.1, one_a);
    let w2 = (right.product)(c.0, zero_c);
    let x2 = (right.product)(c.0, one_c);
    let y2 = (right.product)(c.1, zero_c);
    let z2 = (right.product)(c.1, one_c);
    lemma_product(left, right, related, a.0, zero_a, c.0, zero_c);
    lemma_product(left, right, related, a.0, one_a, c.0, one_c);
    lemma_product(left, right, related, a.1, zero_a, c.1, zero_c);
    lemma_product(left, right, related, a.1, one_a, c.1, one_c);
    let s0 = (left.zero, left.zero);
    let t0 = (right.zero, right.zero);
    let b0 = mle::borrow_out(0, limit_bit, 0);
    let b1 = mle::borrow_out(1, limit_bit, 0);
    let b2 = mle::borrow_out(0, limit_bit, 1);
    let b3 = mle::borrow_out(1, limit_bit, 1);
    lemma_deposit(left, right, related, s0, t0, b0, w, w2);
    let s1 = mle::deposit(left, s0, b0, w);
    let t1 = mle::deposit(right, t0, b0, w2);
    lemma_deposit(left, right, related, s1, t1, b1, x, x2);
    let s2 = mle::deposit(left, s1, b1, x);
    let t2 = mle::deposit(right, t1, b1, x2);
    lemma_deposit(left, right, related, s2, t2, b2, y, y2);
    let s3 = mle::deposit(left, s2, b2, y);
    let t3 = mle::deposit(right, t2, b2, y2);
    lemma_deposit(left, right, related, s3, t3, b3, z, z2);
}

proof fn lemma_index_states<S, T>(
    left: ScalarOps<S>,
    right: ScalarOps<T>,
    related: spec_fn(S, T) -> bool,
    p: Seq<S>,
    q: Seq<T>,
    limit: int,
    bits: nat,
)
    requires
        keeps(left, right, related),
        points(related, p, q),
        bits <= p.len(),
    ensures
        state_pair(
            related,
            mle::index_states(left, p, limit, bits),
            mle::index_states(right, q, limit, bits),
        ),
    decreases bits,
{
    lemma_constants(left, right, related, 0);
    if bits > 0 {
        let position = (bits - 1) as nat;
        lemma_index_states(left, right, related, p, q, limit, position);
        let a = p[p.len() - bits];
        let c = q[q.len() - bits];
        lemma_bit_factor(left, right, related, a, c, 0);
        lemma_bit_factor(left, right, related, a, c, 1);
        lemma_compare_step(
            left,
            right,
            related,
            mle::index_states(left, p, limit, position),
            mle::index_states(right, q, limit, position),
            mle::bit_of(limit, position),
            mle::bit_factor(left, a, 0),
            mle::bit_factor(left, a, 1),
            mle::bit_factor(right, c, 0),
            mle::bit_factor(right, c, 1),
        );
    }
}

pub proof fn lemma_index_sum<S, T>(
    left: ScalarOps<S>,
    right: ScalarOps<T>,
    related: spec_fn(S, T) -> bool,
    p: Seq<S>,
    q: Seq<T>,
    limit: int,
)
    requires
        keeps(left, right, related),
        points(related, p, q),
    ensures
        related(mle::index_sum(left, p, limit), mle::index_sum(right, q, limit)),
{
    lemma_constants(left, right, related, 0);
    lemma_index_states(left, right, related, p, q, limit, p.len());
}

proof fn lemma_equality_product<S, T>(
    left: ScalarOps<S>,
    right: ScalarOps<T>,
    related: spec_fn(S, T) -> bool,
    p: Seq<S>,
    p2: Seq<S>,
    q: Seq<T>,
    q2: Seq<T>,
    count: nat,
)
    requires
        keeps(left, right, related),
        points(related, p, q),
        points(related, p2, q2),
        p.len() == p2.len(),
        count <= p.len(),
    ensures
        related(
            mle::equality_product(left, p, p2, count),
            mle::equality_product(right, q, q2, count),
        ),
    decreases count,
{
    lemma_constants(left, right, related, 0);
    if count > 0 {
        let fewer = (count - 1) as nat;
        lemma_equality_product(left, right, related, p, p2, q, q2, fewer);
        let l = p[count - 1];
        let r = p2[count - 1];
        let m = q[count - 1];
        let s = q2[count - 1];
        lemma_difference(left, right, related, left.one, l, right.one, m);
        lemma_difference(left, right, related, left.one, r, right.one, s);
        let l0 = (left.difference)(left.one, l);
        let r0 = (left.difference)(left.one, r);
        let m0 = (right.difference)(right.one, m);
        let s0 = (right.difference)(right.one, s);
        lemma_product(left, right, related, l0, r0, m0, s0);
        lemma_product(left, right, related, l, r, m, s);
        lemma_sum(
            left,
            right,
            related,
            (left.product)(l0, r0),
            (left.product)(l, r),
            (right.product)(m0, s0),
            (right.product)(m, s),
        );
        lemma_product(
            left,
            right,
            related,
            mle::equality_product(left, p, p2, fewer),
            (left.sum)((left.product)(l0, r0), (left.product)(l, r)),
            mle::equality_product(right, q, q2, fewer),
            (right.sum)((right.product)(m0, s0), (right.product)(m, s)),
        );
    }
}

proof fn lemma_equal_states<S, T>(
    left: ScalarOps<S>,
    right: ScalarOps<T>,
    related: spec_fn(S, T) -> bool,
    p: Seq<S>,
    p2: Seq<S>,
    q: Seq<T>,
    q2: Seq<T>,
    limit: int,
    bits: nat,
)
    requires
        keeps(left, right, related),
        points(related, p, q),
        points(related, p2, q2),
        p.len() == p2.len(),
        bits <= p.len(),
    ensures
        state_pair(
            related,
            mle::equal_states(left, p, p2, limit, bits),
            mle::equal_states(right, q, q2, limit, bits),
        ),
    decreases bits,
{
    lemma_constants(left, right, related, 0);
    if bits > 0 {
        let position = (bits - 1) as nat;
        lemma_equal_states(left, right, related, p, p2, q, q2, limit, position);
        let l = p[p.len() - bits];
        let r = p2[p.len() - bits];
        let m = q[p.len() - bits];
        let s = q2[p.len() - bits];
        lemma_bit_factor(left, right, related, l, m, 0);
        lemma_bit_factor(left, right, related, l, m, 1);
        lemma_bit_factor(left, right, related, r, s, 0);
        lemma_bit_factor(left, right, related, r, s, 1);
        let l0 = mle::bit_factor(left, l, 0);
        let l1 = mle::bit_factor(left, l, 1);
        let r0 = mle::bit_factor(left, r, 0);
        let r1 = mle::bit_factor(left, r, 1);
        let m0 = mle::bit_factor(right, m, 0);
        let m1 = mle::bit_factor(right, m, 1);
        let s0 = mle::bit_factor(right, s, 0);
        let s1 = mle::bit_factor(right, s, 1);
        lemma_product(left, right, related, l0, r0, m0, s0);
        lemma_product(left, right, related, l1, r1, m1, s1);
        lemma_compare_step(
            left,
            right,
            related,
            mle::equal_states(left, p, p2, limit, position),
            mle::equal_states(right, q, q2, limit, position),
            mle::bit_of(limit, position),
            (left.product)(l0, r0),
            (left.product)(l1, r1),
            (right.product)(m0, s0),
            (right.product)(m1, s1),
        );
    }
}

pub proof fn lemma_equal_sum<S, T>(
    left: ScalarOps<S>,
    right: ScalarOps<T>,
    related: spec_fn(S, T) -> bool,
    p: Seq<S>,
    p2: Seq<S>,
    q: Seq<T>,
    q2: Seq<T>,
    limit: int,
)
    requires
        keeps(left, right, related),
        points(related, p, q),
        points(related, p2, q2),
        p.len() == p2.len(),
    ensures
        related(mle::equal_sum(left, p, p2, limit), mle::equal_sum(right, q, q2, limit)),
{
    lemma_constants(left, right, related, 0);
    lemma_equality_product(left, right, related, p, p2, q, q2, p.len());
    lemma_equal_states(left, right, related, p, p2, q, q2, limit, p.len());
}

/// All four states are related.
spec fn carry_pair<S, T>(
    related: spec_fn(S, T) -> bool,
    a: CarryStates<S>,
    c: CarryStates<T>,
) -> bool {
    state_pair(related, a.low, c.low) && state_pair(related, a.high, c.high)
}

proof fn lemma_shifted_term<S, T>(
    left: ScalarOps<S>,
    right: ScalarOps<T>,
    related: spec_fn(S, T) -> bool,
    next: CarryStates<S>,
    other: CarryStates<T>,
    state: S,
    twin: T,
    carry_in: int,
    borrow_in: int,
    index_bit: int,
    limit_bit: int,
    shift_bit: int,
    l: S,
    r: S,
    m: T,
    s: T,
)
    requires
        keeps(left, right, related),
        carry_pair(related, next, other),
        related(state, twin),
        related(l, m),
        related(r, s),
    ensures
        carry_pair(
            related,
            mle::shifted_term(
                left,
                next,
                state,
                carry_in,
                borrow_in,
                index_bit,
                limit_bit,
                shift_bit,
                l,
                r,
            ),
            mle::shifted_term(
                right,
                other,
                twin,
                carry_in,
                borrow_in,
                index_bit,
                limit_bit,
                shift_bit,
                m,
                s,
            ),
        ),
{
    let total = index_bit + shift_bit + carry_in;
    lemma_bit_factor(left, right, related, l, m, index_bit);
    lemma_bit_factor(left, right, related, r, s, total % 2);
    let l0 = mle::bit_factor(left, l, index_bit);
    let r0 = mle::bit_factor(left, r, total % 2);
    let m0 = mle::bit_factor(right, m, index_bit);
    let s0 = mle::bit_factor(right, s, total % 2);
    lemma_product(left, right, related, l0, r0, m0, s0);
    let pair = (left.product)(l0, r0);
    let mate = (right.product)(m0, s0);
    lemma_product(left, right, related, state, pair, twin, mate);
    let term = (left.product)(state, pair);
    let counterpart = (right.product)(twin, mate);
    let borrow = mle::borrow_out(index_bit, limit_bit, borrow_in);
    lemma_deposit(left, right, related, next.low, other.low, borrow, term, counterpart);
    lemma_deposit(left, right, related, next.high, other.high, borrow, term, counterpart);
}

proof fn lemma_shifted_step<S, T>(
    left: ScalarOps<S>,
    right: ScalarOps<T>,
    related: spec_fn(S, T) -> bool,
    a: CarryStates<S>,
    c: CarryStates<T>,
    lb: int,
    sb: int,
    l: S,
    r: S,
    m: T,
    s: T,
)
    requires
        keeps(left, right, related),
        carry_pair(related, a, c),
        related(l, m),
        related(r, s),
    ensures
        carry_pair(
            related,
            mle::shifted_step(left, a, lb, sb, l, r),
            mle::shifted_step(right, c, lb, sb, m, s),
        ),
{
    lemma_constants(left, right, related, 0);
    let x0 = CarryStates { low: (left.zero, left.zero), high: (left.zero, left.zero) };
    let y0 = CarryStates { low: (right.zero, right.zero), high: (right.zero, right.zero) };
    lemma_shifted_term(
        left, right, related, x0, y0, a.low.0, c.low.0, 0, 0, 0, lb, sb, l, r, m, s,
    );
    let x1 = mle::shifted_term(left, x0, a.low.0, 0, 0, 0, lb, sb, l, r);
    let y1 = mle::shifted_term(right, y0, c.low.0, 0, 0, 0, lb, sb, m, s);
    lemma_shifted_term(
        left, right, related, x1, y1, a.low.0, c.low.0, 0, 0, 1, lb, sb, l, r, m, s,
    );
    let x2 = mle::shifted_term(left, x1, a.low.0, 0, 0, 1, lb, sb, l, r);
    let y2 = mle::shifted_term(right, y1, c.low.0, 0, 0, 1, lb, sb, m, s);
    lemma_shifted_term(
        left, right, related, x2, y2, a.low.1, c.low.1, 0, 1, 0, lb, sb, l, r, m, s,
    );
    let x3 = mle::shifted_term(left, x2, a.low.1, 0, 1, 0, lb, sb, l, r);
    let y3 = mle::shifted_term(right, y2, c.low.1, 0, 1, 0, lb, sb, m, s);
    lemma_shifted_term(
        left, right, related, x3, y3, a.low.1, c.low.1, 0, 1, 1, lb, sb, l, r, m, s,
    );
    let x4 = mle::shifted_term(left, x3, a.low.1, 0, 1, 1, lb, sb, l, r);
    let y4 = mle::shifted_term(right, y3, c.low.1, 0, 1, 1, lb, sb, m, s);
    lemma_shifted_term(
        left, right, related, x4, y4, a.high.0, c.high.0, 1, 0, 0, lb, sb, l, r, m, s,
    );
    let x5 = mle::shifted_term(left, x4, a.high.0, 1, 0, 0, lb, sb, l, r);
    let y5 = mle::shifted_term(right, y4, c.high.0, 1, 0, 0, lb, sb, m, s);
    lemma_shifted_term(
        left, right, related, x5, y5, a.high.0, c.high.0, 1, 0, 1, lb, sb, l, r, m, s,
    );
    let x6 = mle::shifted_term(left, x5, a.high.0, 1, 0, 1, lb, sb, l, r);
    let y6 = mle::shifted_term(right, y5, c.high.0, 1, 0, 1, lb, sb, m, s);
    lemma_shifted_term(
        left, right, related, x6, y6, a.high.1, c.high.1, 1, 1, 0, lb, sb, l, r, m, s,
    );
    let x7 = mle::shifted_term(left, x6, a.high.1, 1, 1, 0, lb, sb, l, r);
    let y7 = mle::shifted_term(right, y6, c.high.1, 1, 1, 0, lb, sb, m, s);
    lemma_shifted_term(
        left, right, related, x7, y7, a.high.1, c.high.1, 1, 1, 1, lb, sb, l, r, m, s,
    );
}

proof fn lemma_shifted_states<S, T>(
    left: ScalarOps<S>,
    right: ScalarOps<T>,
    related: spec_fn(S, T) -> bool,
    p: Seq<S>,
    p2: Seq<S>,
    q: Seq<T>,
    q2: Seq<T>,
    limit: int,
    shift: int,
    carry: int,
    bits: nat,
)
    requires
        keeps(left, right, related),
        points(related, p, q),
        points(related, p2, q2),
        p.len() == p2.len(),
        bits <= p.len(),
    ensures
        carry_pair(
            related,
            mle::shifted_states(left, p, p2, limit, shift, carry, bits),
            mle::shifted_states(right, q, q2, limit, shift, carry, bits),
        ),
    decreases bits,
{
    lemma_constants(left, right, related, 0);
    if bits > 0 {
        let position = (bits - 1) as nat;
        lemma_shifted_states(left, right, related, p, p2, q, q2, limit, shift, carry, position);
        assert(related(p[p.len() - bits], q[p.len() - bits]));
        assert(related(p2[p.len() - bits], q2[p.len() - bits]));
        lemma_shifted_step(
            left,
            right,
            related,
            mle::shifted_states(left, p, p2, limit, shift, carry, position),
            mle::shifted_states(right, q, q2, limit, shift, carry, position),
            mle::bit_of(limit, position),
            mle::bit_of(shift, position),
            p[p.len() - bits],
            p2[p.len() - bits],
            q[p.len() - bits],
            q2[p.len() - bits],
        );
    }
}

pub proof fn lemma_shifted_sum<S, T>(
    left: ScalarOps<S>,
    right: ScalarOps<T>,
    related: spec_fn(S, T) -> bool,
    p: Seq<S>,
    p2: Seq<S>,
    q: Seq<T>,
    q2: Seq<T>,
    limit: int,
    shift: int,
    carry: int,
)
    requires
        keeps(left, right, related),
        points(related, p, q),
        points(related, p2, q2),
        p.len() == p2.len(),
    ensures
        related(
            mle::shifted_sum(left, p, p2, limit, shift, carry),
            mle::shifted_sum(right, q, q2, limit, shift, carry),
        ),
{
    lemma_shifted_states(left, right, related, p, p2, q, q2, limit, shift, carry, p.len());
}

/// All four factors are related.
spec fn factor_pair<S, T>(
    related: spec_fn(S, T) -> bool,
    a: EdgeFactors<S>,
    c: EdgeFactors<T>,
) -> bool {
    related(a.equal, c.equal) && related(a.forward, c.forward) && related(a.reverse, c.reverse)
        && related(a.end, c.end)
}

proof fn lemma_edge_form<S, T>(
    left: ScalarOps<S>,
    right: ScalarOps<T>,
    related: spec_fn(S, T) -> bool,
    a: (S, S, S, S),
    c: (T, T, T, T),
    high: EdgeFactors<S>,
    other: EdgeFactors<T>,
)
    requires
        keeps(left, right, related),
        related(a.0, c.0),
        related(a.1, c.1),
        related(a.2, c.2),
        related(a.3, c.3),
        factor_pair(related, high, other),
    ensures
        related(
            evaluation::edge_form(left, a.0, a.1, a.2, a.3, high),
            evaluation::edge_form(right, c.0, c.1, c.2, c.3, other),
        ),
{
    let p = left.product;
    let q = right.product;
    lemma_product(left, right, related, a.0, a.3, c.0, c.3);
    lemma_product(left, right, related, a.2, a.1, c.2, c.1);
    lemma_product(left, right, related, a.0, a.1, c.0, c.1);
    lemma_product(left, right, related, a.2, a.3, c.2, c.3);
    lemma_product(left, right, related, p(a.0, a.3), high.forward, q(c.0, c.3), other.forward);
    lemma_product(left, right, related, p(a.2, a.1), high.reverse, q(c.2, c.1), other.reverse);
    lemma_product(left, right, related, p(a.0, a.1), high.equal, q(c.0, c.1), other.equal);
    lemma_product(left, right, related, p(a.2, a.3), high.end, q(c.2, c.3), other.end);
    let forward = p(p(a.0, a.3), high.forward);
    let reverse = p(p(a.2, a.1), high.reverse);
    let start = p(p(a.0, a.1), high.equal);
    let end = p(p(a.2, a.3), high.end);
    let forward2 = q(q(c.0, c.3), other.forward);
    let reverse2 = q(q(c.2, c.1), other.reverse);
    let start2 = q(q(c.0, c.1), other.equal);
    let end2 = q(q(c.2, c.3), other.end);
    lemma_sum(left, right, related, forward, reverse, forward2, reverse2);
    let total = (left.sum)(forward, reverse);
    let total2 = (right.sum)(forward2, reverse2);
    lemma_difference(left, right, related, total, start, total2, start2);
    lemma_difference(
        left,
        right,
        related,
        (left.difference)(total, start),
        end,
        (right.difference)(total2, start2),
        end2,
    );
}

proof fn lemma_tridiagonal_factors<S, T>(
    left: ScalarOps<S>,
    right: ScalarOps<T>,
    related: spec_fn(S, T) -> bool,
    p: Seq<S>,
    p2: Seq<S>,
    q: Seq<T>,
    q2: Seq<T>,
    count: int,
    wraps: bool,
)
    requires
        keeps(left, right, related),
        points(related, p, q),
        points(related, p2, q2),
        p.len() == p2.len(),
    ensures
        factor_pair(
            related,
            evaluation::tridiagonal_factors(left, p, p2, count, wraps),
            evaluation::tridiagonal_factors(right, q, q2, count, wraps),
        ),
{
    lemma_equal_sum(left, right, related, p, p2, q, q2, count);
    if wraps {
        lemma_shifted_sum(left, right, related, p, p2, q, q2, count, 0, 1);
        lemma_shifted_sum(left, right, related, p2, p, q2, q, count, 0, 1);
        lemma_equal_sum(left, right, related, p, p2, q, q2, count + 1);
        lemma_basis(left, right, related, p, q, 0);
        lemma_basis(left, right, related, p2, q2, 0);
        lemma_product(
            left,
            right,
            related,
            mle::basis(left, p, 0),
            mle::basis(left, p2, 0),
            mle::basis(right, q, 0),
            mle::basis(right, q2, 0),
        );
        lemma_difference(
            left,
            right,
            related,
            mle::equal_sum(left, p, p2, count + 1),
            (left.product)(mle::basis(left, p, 0), mle::basis(left, p2, 0)),
            mle::equal_sum(right, q, q2, count + 1),
            (right.product)(mle::basis(right, q, 0), mle::basis(right, q2, 0)),
        );
    }
}

proof fn lemma_edge_factors<S, T>(
    left: ScalarOps<S>,
    right: ScalarOps<T>,
    related: spec_fn(S, T) -> bool,
    p: Seq<S>,
    p2: Seq<S>,
    q: Seq<T>,
    q2: Seq<T>,
    count: int,
    shift: int,
    carry: int,
)
    requires
        keeps(left, right, related),
        points(related, p, q),
        points(related, p2, q2),
        p.len() == p2.len(),
    ensures
        factor_pair(
            related,
            evaluation::edge_factors(left, p, p2, count, shift, carry),
            evaluation::edge_factors(right, q, q2, count, shift, carry),
        ),
{
    lemma_equal_sum(left, right, related, p, p2, q, q2, count);
    if shift + carry != 0 {
        lemma_shifted_sum(left, right, related, p, p2, q, q2, count, shift, carry);
        lemma_shifted_sum(left, right, related, p2, p, q2, q, count, shift, carry);
        lemma_equal_sum(left, right, related, p, p2, q, q2, count + shift + carry);
        lemma_equal_sum(left, right, related, p, p2, q, q2, shift + carry);
        lemma_difference(
            left,
            right,
            related,
            mle::equal_sum(left, p, p2, count + shift + carry),
            mle::equal_sum(left, p, p2, shift + carry),
            mle::equal_sum(right, q, q2, count + shift + carry),
            mle::equal_sum(right, q, q2, shift + carry),
        );
    }
}

proof fn lemma_tridiagonal_form<S, T>(
    left: ScalarOps<S>,
    right: ScalarOps<T>,
    related: spec_fn(S, T) -> bool,
    p: Seq<S>,
    p2: Seq<S>,
    q: Seq<T>,
    q2: Seq<T>,
    split: PatternSplit,
    pattern: int,
)
    requires
        keeps(left, right, related),
        points(related, p, q),
        points(related, p2, q2),
        p.len() == p2.len(),
        split.bits <= p.len(),
    ensures
        related(
            evaluation::tridiagonal_form(left, split, p, p2, pattern),
            evaluation::tridiagonal_form(right, split, q, q2, pattern),
        ),
{
    let bits = split.bits;
    let period = vstd::arithmetic::power2::pow2(bits) as int;
    let next = (pattern + 1) % period;
    lemma_parts(related, p, q, bits);
    lemma_parts(related, p2, q2, bits);
    let a = evaluation::low_part(p, bits);
    let b = evaluation::low_part(p2, bits);
    let c = evaluation::low_part(q, bits);
    let d = evaluation::low_part(q2, bits);
    lemma_basis(left, right, related, a, c, pattern);
    lemma_basis(left, right, related, b, d, pattern);
    lemma_basis(left, right, related, a, c, next);
    lemma_basis(left, right, related, b, d, next);
    lemma_tridiagonal_factors(
        left,
        right,
        related,
        evaluation::high_part(p, bits),
        evaluation::high_part(p2, bits),
        evaluation::high_part(q, bits),
        evaluation::high_part(q2, bits),
        split.count(pattern),
        pattern + 1 >= period,
    );
    lemma_edge_form(
        left,
        right,
        related,
        (
            mle::basis(left, a, pattern),
            mle::basis(left, b, pattern),
            mle::basis(left, a, next),
            mle::basis(left, b, next),
        ),
        (
            mle::basis(right, c, pattern),
            mle::basis(right, d, pattern),
            mle::basis(right, c, next),
            mle::basis(right, d, next),
        ),
        evaluation::tridiagonal_factors(
            left,
            evaluation::high_part(p, bits),
            evaluation::high_part(p2, bits),
            split.count(pattern),
            pattern + 1 >= period,
        ),
        evaluation::tridiagonal_factors(
            right,
            evaluation::high_part(q, bits),
            evaluation::high_part(q2, bits),
            split.count(pattern),
            pattern + 1 >= period,
        ),
    );
}

proof fn lemma_edge_pattern_form<S, T>(
    left: ScalarOps<S>,
    right: ScalarOps<T>,
    related: spec_fn(S, T) -> bool,
    p: Seq<S>,
    p2: Seq<S>,
    q: Seq<T>,
    q2: Seq<T>,
    split: PatternSplit,
    offset: int,
    pattern: int,
)
    requires
        keeps(left, right, related),
        points(related, p, q),
        points(related, p2, q2),
        p.len() == p2.len(),
        split.bits <= p.len(),
    ensures
        related(
            evaluation::edge_pattern_form(left, split, offset, p, p2, pattern),
            evaluation::edge_pattern_form(right, split, offset, q, q2, pattern),
        ),
{
    let bits = split.bits;
    let moved = evaluation::displace(bits, pattern, offset);
    lemma_parts(related, p, q, bits);
    lemma_parts(related, p2, q2, bits);
    let a = evaluation::low_part(p, bits);
    let b = evaluation::low_part(p2, bits);
    let c = evaluation::low_part(q, bits);
    let d = evaluation::low_part(q2, bits);
    lemma_basis(left, right, related, a, c, pattern);
    lemma_basis(left, right, related, b, d, pattern);
    lemma_basis(left, right, related, a, c, moved.next);
    lemma_basis(left, right, related, b, d, moved.next);
    lemma_edge_factors(
        left,
        right,
        related,
        evaluation::high_part(p, bits),
        evaluation::high_part(p2, bits),
        evaluation::high_part(q, bits),
        evaluation::high_part(q2, bits),
        split.count(pattern),
        moved.shift,
        moved.carry,
    );
    lemma_edge_form(
        left,
        right,
        related,
        (
            mle::basis(left, a, pattern),
            mle::basis(left, b, pattern),
            mle::basis(left, a, moved.next),
            mle::basis(left, b, moved.next),
        ),
        (
            mle::basis(right, c, pattern),
            mle::basis(right, d, pattern),
            mle::basis(right, c, moved.next),
            mle::basis(right, d, moved.next),
        ),
        evaluation::edge_factors(
            left,
            evaluation::high_part(p, bits),
            evaluation::high_part(p2, bits),
            split.count(pattern),
            moved.shift,
            moved.carry,
        ),
        evaluation::edge_factors(
            right,
            evaluation::high_part(q, bits),
            evaluation::high_part(q2, bits),
            split.count(pattern),
            moved.shift,
            moved.carry,
        ),
    );
}

/// Adding a weighted term to related values keeps them related.
proof fn lemma_weighted<S, T>(
    left: ScalarOps<S>,
    right: ScalarOps<T>,
    related: spec_fn(S, T) -> bool,
    start: S,
    other: T,
    mantissa: int,
    form: S,
    twin: T,
)
    requires
        keeps(left, right, related),
        related(start, other),
        related(form, twin),
    ensures
        related(
            (left.sum)(start, (left.product)((left.embed)(mantissa), form)),
            (right.sum)(other, (right.product)((right.embed)(mantissa), twin)),
        ),
{
    lemma_constants(left, right, related, mantissa);
    lemma_product(
        left,
        right,
        related,
        (left.embed)(mantissa),
        form,
        (right.embed)(mantissa),
        twin,
    );
    lemma_sum(
        left,
        right,
        related,
        start,
        (left.product)((left.embed)(mantissa), form),
        other,
        (right.product)((right.embed)(mantissa), twin),
    );
}

proof fn lemma_split_bits(variables: nat, period: nat, limit: int)
    ensures
        evaluation::split_patterns(variables, period, limit).bits <= variables,
{
}

/// The scaled sum over the diagonal.
proof fn lemma_diagonal_part<S, T>(
    left: ScalarOps<S>,
    right: ScalarOps<T>,
    related: spec_fn(S, T) -> bool,
    p: Seq<S>,
    p2: Seq<S>,
    q: Seq<T>,
    q2: Seq<T>,
    scale: int,
    dimension: int,
)
    requires
        keeps(left, right, related),
        points(related, p, q),
        points(related, p2, q2),
        p.len() == p2.len(),
    ensures
        related(
            (left.product)((left.embed)(scale), mle::equal_sum(left, p, p2, dimension)),
            (right.product)((right.embed)(scale), mle::equal_sum(right, q, q2, dimension)),
        ),
{
    lemma_constants(left, right, related, scale);
    lemma_equal_sum(left, right, related, p, p2, q, q2, dimension);
    lemma_product(
        left,
        right,
        related,
        (left.embed)(scale),
        mle::equal_sum(left, p, p2, dimension),
        (right.embed)(scale),
        mle::equal_sum(right, q, q2, dimension),
    );
}

proof fn lemma_tridiagonal_terms<S, T>(
    left: ScalarOps<S>,
    right: ScalarOps<T>,
    related: spec_fn(S, T) -> bool,
    p: Seq<S>,
    p2: Seq<S>,
    q: Seq<T>,
    q2: Seq<T>,
    dimension: nat,
    margin: nat,
    table: Seq<i64>,
    count: nat,
)
    requires
        keeps(left, right, related),
        points(related, p, q),
        points(related, p2, q2),
        p.len() == p2.len(),
    ensures
        related(
            evaluation::tridiagonal_terms(left, dimension, margin, table, p, p2, count),
            evaluation::tridiagonal_terms(right, dimension, margin, table, q, q2, count),
        ),
    decreases count,
{
    if count == 0 {
        lemma_diagonal_part(
            left,
            right,
            related,
            p,
            p2,
            q,
            q2,
            margin as int,
            dimension as int,
        );
    } else {
        let fewer = (count - 1) as nat;
        let split = evaluation::split_patterns(p.len(), table.len(), dimension - 1);
        lemma_split_bits(p.len(), table.len(), dimension - 1);
        lemma_tridiagonal_terms(
            left,
            right,
            related,
            p,
            p2,
            q,
            q2,
            dimension,
            margin,
            table,
            fewer,
        );
        lemma_tridiagonal_form(left, right, related, p, p2, q, q2, split, count - 1);
        lemma_weighted(
            left,
            right,
            related,
            evaluation::tridiagonal_terms(left, dimension, margin, table, p, p2, fewer),
            evaluation::tridiagonal_terms(right, dimension, margin, table, q, q2, fewer),
            table[count - 1] as int,
            evaluation::tridiagonal_form(left, split, p, p2, count - 1),
            evaluation::tridiagonal_form(right, split, q, q2, count - 1),
        );
    }
}

proof fn lemma_edge_terms<S, T>(
    left: ScalarOps<S>,
    right: ScalarOps<T>,
    related: spec_fn(S, T) -> bool,
    p: Seq<S>,
    p2: Seq<S>,
    q: Seq<T>,
    q2: Seq<T>,
    dimension: nat,
    edge: EdgeModel,
    start: S,
    other: T,
    count: nat,
)
    requires
        keeps(left, right, related),
        points(related, p, q),
        points(related, p2, q2),
        p.len() == p2.len(),
        related(start, other),
    ensures
        related(
            evaluation::edge_terms(left, dimension, edge, p, p2, start, count),
            evaluation::edge_terms(right, dimension, edge, q, q2, other, count),
        ),
    decreases count,
{
    if count > 0 {
        let fewer = (count - 1) as nat;
        let limit = dimension - edge.offset;
        let split = evaluation::split_patterns(p.len(), edge.table.len(), limit);
        lemma_split_bits(p.len(), edge.table.len(), limit);
        lemma_edge_terms(
            left,
            right,
            related,
            p,
            p2,
            q,
            q2,
            dimension,
            edge,
            start,
            other,
            fewer,
        );
        let offset = edge.offset as int;
        lemma_edge_pattern_form(
            left,
            right,
            related,
            p,
            p2,
            q,
            q2,
            split,
            offset,
            count - 1,
        );
        lemma_weighted(
            left,
            right,
            related,
            evaluation::edge_terms(left, dimension, edge, p, p2, start, fewer),
            evaluation::edge_terms(right, dimension, edge, q, q2, other, fewer),
            edge.table[count - 1] as int,
            evaluation::edge_pattern_form(left, split, offset, p, p2, count - 1),
            evaluation::edge_pattern_form(right, split, offset, q, q2, count - 1),
        );
    }
}

proof fn lemma_laplacian_terms<S, T>(
    left: ScalarOps<S>,
    right: ScalarOps<T>,
    related: spec_fn(S, T) -> bool,
    p: Seq<S>,
    p2: Seq<S>,
    q: Seq<T>,
    q2: Seq<T>,
    dimension: nat,
    shift: nat,
    edges: Seq<EdgeModel>,
    count: nat,
)
    requires
        keeps(left, right, related),
        points(related, p, q),
        points(related, p2, q2),
        p.len() == p2.len(),
    ensures
        related(
            evaluation::laplacian_terms(left, dimension, shift, edges, p, p2, count),
            evaluation::laplacian_terms(right, dimension, shift, edges, q, q2, count),
        ),
    decreases count,
{
    if count == 0 {
        lemma_diagonal_part(
            left,
            right,
            related,
            p,
            p2,
            q,
            q2,
            shift as int,
            dimension as int,
        );
    } else {
        let fewer = (count - 1) as nat;
        let edge = edges[count - 1];
        lemma_laplacian_terms(
            left,
            right,
            related,
            p,
            p2,
            q,
            q2,
            dimension,
            shift,
            edges,
            fewer,
        );
        lemma_edge_terms(
            left,
            right,
            related,
            p,
            p2,
            q,
            q2,
            dimension,
            edge,
            evaluation::laplacian_terms(left, dimension, shift, edges, p, p2, fewer),
            evaluation::laplacian_terms(right, dimension, shift, edges, q, q2, fewer),
            evaluation::split_patterns(
                p.len(),
                edge.table.len(),
                dimension - edge.offset,
            ).active(),
        );
    }
}

proof fn lemma_entry_form<S, T>(
    left: ScalarOps<S>,
    right: ScalarOps<T>,
    related: spec_fn(S, T) -> bool,
    p: Seq<S>,
    p2: Seq<S>,
    q: Seq<T>,
    q2: Seq<T>,
    split: PatternSplit,
    offset: int,
    pattern: int,
)
    requires
        keeps(left, right, related),
        points(related, p, q),
        points(related, p2, q2),
        p.len() == p2.len(),
        split.bits <= p.len(),
    ensures
        related(
            evaluation::entry_form(left, split, offset, p, p2, pattern),
            evaluation::entry_form(right, split, offset, q, q2, pattern),
        ),
{
    let bits = split.bits;
    let moved = evaluation::displace(bits, pattern, offset);
    let count = split.count(pattern);
    lemma_parts(related, p, q, bits);
    lemma_parts(related, p2, q2, bits);
    let a = mle::basis(left, evaluation::low_part(p, bits), pattern);
    let b = mle::basis(left, evaluation::low_part(p2, bits), moved.next);
    let c = mle::basis(right, evaluation::low_part(q, bits), pattern);
    let d = mle::basis(right, evaluation::low_part(q2, bits), moved.next);
    lemma_basis(
        left,
        right,
        related,
        evaluation::low_part(p, bits),
        evaluation::low_part(q, bits),
        pattern,
    );
    lemma_basis(
        left,
        right,
        related,
        evaluation::low_part(p2, bits),
        evaluation::low_part(q2, bits),
        moved.next,
    );
    lemma_product(left, right, related, a, b, c, d);
    let hp = evaluation::high_part(p, bits);
    let hp2 = evaluation::high_part(p2, bits);
    let hq = evaluation::high_part(q, bits);
    let hq2 = evaluation::high_part(q2, bits);
    lemma_equal_sum(left, right, related, hp, hp2, hq, hq2, count);
    lemma_shifted_sum(
        left,
        right,
        related,
        hp,
        hp2,
        hq,
        hq2,
        count,
        moved.shift,
        moved.carry,
    );
    lemma_product(
        left,
        right,
        related,
        (left.product)(a, b),
        evaluation::displaced_high(left, hp, hp2, count, moved.shift, moved.carry),
        (right.product)(c, d),
        evaluation::displaced_high(right, hq, hq2, count, moved.shift, moved.carry),
    );
}

proof fn lemma_entry_term<S, T>(
    left: ScalarOps<S>,
    right: ScalarOps<T>,
    related: spec_fn(S, T) -> bool,
    p: Seq<S>,
    p2: Seq<S>,
    q: Seq<T>,
    q2: Seq<T>,
    dimension: nat,
    period: nat,
    pattern: int,
    offset: int,
    mantissa: int,
    start: S,
    other: T,
)
    requires
        keeps(left, right, related),
        points(related, p, q),
        points(related, p2, q2),
        p.len() == p2.len(),
        related(start, other),
    ensures
        related(
            evaluation::entry_term(
                left,
                dimension,
                period,
                pattern,
                offset,
                mantissa,
                p,
                p2,
                start,
            ),
            evaluation::entry_term(
                right,
                dimension,
                period,
                pattern,
                offset,
                mantissa,
                q,
                q2,
                other,
            ),
        ),
{
    let distance = crate::problem::magnitude(offset) as int;
    let split = evaluation::split_patterns(p.len(), period, dimension - distance);
    let anchor = evaluation::anchor_pattern(period as int, pattern, offset);
    lemma_split_bits(p.len(), period, dimension - distance);
    if offset >= 0 {
        lemma_entry_form(left, right, related, p, p2, q, q2, split, distance, anchor);
        lemma_weighted(
            left,
            right,
            related,
            start,
            other,
            mantissa,
            evaluation::entry_form(left, split, distance, p, p2, anchor),
            evaluation::entry_form(right, split, distance, q, q2, anchor),
        );
    } else {
        lemma_entry_form(left, right, related, p2, p, q2, q, split, distance, anchor);
        lemma_weighted(
            left,
            right,
            related,
            start,
            other,
            mantissa,
            evaluation::entry_form(left, split, distance, p2, p, anchor),
            evaluation::entry_form(right, split, distance, q2, q, anchor),
        );
    }
}

proof fn lemma_row_entries<S, T>(
    left: ScalarOps<S>,
    right: ScalarOps<T>,
    related: spec_fn(S, T) -> bool,
    p: Seq<S>,
    p2: Seq<S>,
    q: Seq<T>,
    q2: Seq<T>,
    dimension: nat,
    period: nat,
    pattern: int,
    offsets: Seq<i32>,
    values: Seq<i64>,
    first: int,
    start: S,
    other: T,
    count: nat,
)
    requires
        keeps(left, right, related),
        points(related, p, q),
        points(related, p2, q2),
        p.len() == p2.len(),
        related(start, other),
    ensures
        related(
            evaluation::row_entries(
                left,
                dimension,
                period,
                pattern,
                offsets,
                values,
                first,
                p,
                p2,
                start,
                count,
            ),
            evaluation::row_entries(
                right,
                dimension,
                period,
                pattern,
                offsets,
                values,
                first,
                q,
                q2,
                other,
                count,
            ),
        ),
    decreases count,
{
    if count > 0 {
        let fewer = (count - 1) as nat;
        lemma_row_entries(
            left,
            right,
            related,
            p,
            p2,
            q,
            q2,
            dimension,
            period,
            pattern,
            offsets,
            values,
            first,
            start,
            other,
            fewer,
        );
        lemma_entry_term(
            left,
            right,
            related,
            p,
            p2,
            q,
            q2,
            dimension,
            period,
            pattern,
            offsets[first + count - 1] as int,
            values[first + count - 1] as int,
            evaluation::row_entries(
                left,
                dimension,
                period,
                pattern,
                offsets,
                values,
                first,
                p,
                p2,
                start,
                fewer,
            ),
            evaluation::row_entries(
                right,
                dimension,
                period,
                pattern,
                offsets,
                values,
                first,
                q,
                q2,
                other,
                fewer,
            ),
        );
    }
}

proof fn lemma_row_sparse_terms<S, T>(
    left: ScalarOps<S>,
    right: ScalarOps<T>,
    related: spec_fn(S, T) -> bool,
    p: Seq<S>,
    p2: Seq<S>,
    q: Seq<T>,
    q2: Seq<T>,
    dimension: nat,
    width: nat,
    offsets: Seq<i32>,
    values: Seq<i64>,
    diagonal: Seq<i64>,
    count: nat,
)
    requires
        keeps(left, right, related),
        points(related, p, q),
        points(related, p2, q2),
        p.len() == p2.len(),
    ensures
        related(
            evaluation::row_sparse_terms(
                left,
                dimension,
                width,
                offsets,
                values,
                diagonal,
                p,
                p2,
                count,
            ),
            evaluation::row_sparse_terms(
                right,
                dimension,
                width,
                offsets,
                values,
                diagonal,
                q,
                q2,
                count,
            ),
        ),
    decreases count,
{
    lemma_constants(left, right, related, 0);
    if count > 0 {
        let pattern = count - 1;
        let period = diagonal.len();
        lemma_row_sparse_terms(
            left,
            right,
            related,
            p,
            p2,
            q,
            q2,
            dimension,
            width,
            offsets,
            values,
            diagonal,
            pattern as nat,
        );
        let before = evaluation::row_sparse_terms(
            left,
            dimension,
            width,
            offsets,
            values,
            diagonal,
            p,
            p2,
            pattern as nat,
        );
        let other = evaluation::row_sparse_terms(
            right,
            dimension,
            width,
            offsets,
            values,
            diagonal,
            q,
            q2,
            pattern as nat,
        );
        let mantissa = diagonal[pattern] as int;
        lemma_entry_term(
            left,
            right,
            related,
            p,
            p2,
            q,
            q2,
            dimension,
            period,
            pattern,
            0,
            mantissa,
            before,
            other,
        );
        lemma_row_entries(
            left,
            right,
            related,
            p,
            p2,
            q,
            q2,
            dimension,
            period,
            pattern,
            offsets,
            values,
            pattern * width,
            evaluation::entry_term(
                left,
                dimension,
                period,
                pattern,
                0,
                mantissa,
                p,
                p2,
                before,
            ),
            evaluation::entry_term(
                right,
                dimension,
                period,
                pattern,
                0,
                mantissa,
                q,
                q2,
                other,
            ),
            width,
        );
    }
}

/// A relation that the operations keep relates matrix evaluations at related
/// points.
pub proof fn related_scalars_give_related_matrix_values<S, T>(
    left: ScalarOps<S>,
    right: ScalarOps<T>,
    related: spec_fn(S, T) -> bool,
    matrix: MatrixModel,
    row: Seq<S>,
    column: Seq<S>,
    other_row: Seq<T>,
    other_column: Seq<T>,
)
    requires
        keeps(left, right, related),
        points(related, row, other_row),
        points(related, column, other_column),
        row.len() == column.len(),
    ensures
        related(
            evaluation::matrix_value(left, matrix, row, column),
            evaluation::matrix_value(right, matrix, other_row, other_column),
        ),
{
    match matrix {
        MatrixModel::Tridiagonal { dimension, margin, table, .. } => {
            lemma_tridiagonal_terms(
                left,
                right,
                related,
                row,
                column,
                other_row,
                other_column,
                dimension,
                margin,
                table,
                evaluation::split_patterns(row.len(), table.len(), dimension - 1).active(),
            );
        },
        MatrixModel::DiaLaplacian { dimension, shift, edges, .. } => {
            lemma_laplacian_terms(
                left,
                right,
                related,
                row,
                column,
                other_row,
                other_column,
                dimension,
                shift,
                edges,
                edges.len(),
            );
        },
        MatrixModel::RowSparse { dimension, width, offsets, values, diagonal, .. } => {
            lemma_row_sparse_terms(
                left,
                right,
                related,
                row,
                column,
                other_row,
                other_column,
                dimension,
                width,
                offsets,
                values,
                diagonal,
                evaluation::split_patterns(
                    row.len(),
                    diagonal.len(),
                    dimension as int,
                ).active(),
            );
        },
    }
}

proof fn lemma_rhs_terms<S, T>(
    left: ScalarOps<S>,
    right: ScalarOps<T>,
    related: spec_fn(S, T) -> bool,
    p: Seq<S>,
    q: Seq<T>,
    dimension: nat,
    table: Seq<i64>,
    count: nat,
)
    requires
        keeps(left, right, related),
        points(related, p, q),
    ensures
        related(
            evaluation::rhs_terms(left, dimension, table, p, count),
            evaluation::rhs_terms(right, dimension, table, q, count),
        ),
    decreases count,
{
    lemma_constants(left, right, related, 0);
    if count > 0 {
        let pattern = count - 1;
        let split = evaluation::split_patterns(p.len(), table.len(), dimension as int);
        lemma_split_bits(p.len(), table.len(), dimension as int);
        lemma_rhs_terms(left, right, related, p, q, dimension, table, pattern as nat);
        lemma_parts(related, p, q, split.bits);
        let hp = evaluation::high_part(p, split.bits);
        let hq = evaluation::high_part(q, split.bits);
        lemma_index_sum(left, right, related, hp, hq, split.complete);
        lemma_index_sum(left, right, related, hp, hq, split.complete + 1);
        lemma_difference(
            left,
            right,
            related,
            mle::index_sum(left, hp, split.complete + 1),
            mle::index_sum(left, hp, split.complete),
            mle::index_sum(right, hq, split.complete + 1),
            mle::index_sum(right, hq, split.complete),
        );
        let weights = evaluation::period_weights(left, split, hp);
        let others = evaluation::period_weights(right, split, hq);
        lemma_sum(left, right, related, weights.0, weights.1, others.0, others.1);
        let high = if pattern < split.partial {
            (left.sum)(weights.0, weights.1)
        } else {
            weights.0
        };
        let twin = if pattern < split.partial {
            (right.sum)(others.0, others.1)
        } else {
            others.0
        };
        let lp = evaluation::low_part(p, split.bits);
        let lq = evaluation::low_part(q, split.bits);
        lemma_basis(left, right, related, lp, lq, pattern);
        let a = mle::basis(left, lp, pattern);
        let c = mle::basis(right, lq, pattern);
        lemma_product(left, right, related, a, high, c, twin);
        let mantissa = table[pattern] as int;
        lemma_constants(left, right, related, mantissa);
        lemma_product(
            left,
            right,
            related,
            (left.product)(a, high),
            (left.embed)(mantissa),
            (right.product)(c, twin),
            (right.embed)(mantissa),
        );
        lemma_sum(
            left,
            right,
            related,
            evaluation::rhs_terms(left, dimension, table, p, pattern as nat),
            (left.product)((left.product)(a, high), (left.embed)(mantissa)),
            evaluation::rhs_terms(right, dimension, table, q, pattern as nat),
            (right.product)((right.product)(c, twin), (right.embed)(mantissa)),
        );
    }
}

/// A relation that the operations keep relates right-hand-side evaluations at
/// related points.
pub proof fn related_scalars_give_related_rhs_values<S, T>(
    left: ScalarOps<S>,
    right: ScalarOps<T>,
    related: spec_fn(S, T) -> bool,
    rhs: RhsModel,
    row: Seq<S>,
    other_row: Seq<T>,
)
    requires
        keeps(left, right, related),
        points(related, row, other_row),
    ensures
        related(
            evaluation::rhs_value(left, rhs, row),
            evaluation::rhs_value(right, rhs, other_row),
        ),
{
    match rhs {
        RhsModel::Constant { dimension, value } => {
            let mantissa = value.mantissa as int;
            lemma_constants(left, right, related, mantissa);
            lemma_index_sum(left, right, related, row, other_row, dimension as int);
            lemma_product(
                left,
                right,
                related,
                (left.embed)(mantissa),
                mle::index_sum(left, row, dimension as int),
                (right.embed)(mantissa),
                mle::index_sum(right, other_row, dimension as int),
            );
        },
        RhsModel::Periodic { dimension, table, .. } => {
            lemma_rhs_terms(
                left,
                right,
                related,
                row,
                other_row,
                dimension,
                table,
                evaluation::split_patterns(row.len(), table.len(), dimension as int).active(),
            );
        },
    }
}

pub proof fn lemma_zero_prefix_pairs<S, T>(
    left: ScalarOps<S>,
    right: ScalarOps<T>,
    related: spec_fn(S, T) -> bool,
    p: Seq<S>,
    p2: Seq<S>,
    q: Seq<T>,
    q2: Seq<T>,
    count: nat,
)
    requires
        keeps(left, right, related),
        points(related, p, q),
        points(related, p2, q2),
        count <= p.len(),
        count <= p2.len(),
    ensures
        related(
            evaluator::zero_prefix_pairs(left, p, p2, count),
            evaluator::zero_prefix_pairs(right, q, q2, count),
        ),
    decreases count,
{
    lemma_constants(left, right, related, 0);
    if count > 0 {
        let fewer = (count - 1) as nat;
        lemma_zero_prefix_pairs(left, right, related, p, p2, q, q2, fewer);
        let l = p[count - 1];
        let r = p2[count - 1];
        let m = q[count - 1];
        let s = q2[count - 1];
        lemma_difference(left, right, related, left.one, l, right.one, m);
        lemma_difference(left, right, related, left.one, r, right.one, s);
        let l0 = (left.difference)(left.one, l);
        let r0 = (left.difference)(left.one, r);
        let m0 = (right.difference)(right.one, m);
        let s0 = (right.difference)(right.one, s);
        lemma_product(left, right, related, l0, r0, m0, s0);
        lemma_product(
            left,
            right,
            related,
            evaluator::zero_prefix_pairs(left, p, p2, fewer),
            (left.product)(l0, r0),
            evaluator::zero_prefix_pairs(right, q, q2, fewer),
            (right.product)(m0, s0),
        );
    }
}

pub proof fn lemma_zero_prefix<S, T>(
    left: ScalarOps<S>,
    right: ScalarOps<T>,
    related: spec_fn(S, T) -> bool,
    p: Seq<S>,
    q: Seq<T>,
    count: nat,
)
    requires
        keeps(left, right, related),
        points(related, p, q),
        count <= p.len(),
    ensures
        related(evaluator::zero_prefix(left, p, count), evaluator::zero_prefix(right, q, count)),
    decreases count,
{
    lemma_constants(left, right, related, 0);
    if count > 0 {
        let fewer = (count - 1) as nat;
        lemma_zero_prefix(left, right, related, p, q, fewer);
        let l = p[count - 1];
        let m = q[count - 1];
        lemma_difference(left, right, related, left.one, l, right.one, m);
        lemma_product(
            left,
            right,
            related,
            evaluator::zero_prefix(left, p, fewer),
            (left.difference)(left.one, l),
            evaluator::zero_prefix(right, q, fewer),
            (right.difference)(right.one, m),
        );
    }
}

pub proof fn lemma_skip<S, T>(
    related: spec_fn(S, T) -> bool,
    left: Seq<S>,
    right: Seq<T>,
    count: int,
)
    requires
        points(related, left, right),
        0 <= count <= left.len(),
    ensures
        points(related, left.skip(count), right.skip(count)),
{
    assert forall|i: int| 0 <= i < left.len() - count implies related(
        #[trigger] left.skip(count)[i],
        right.skip(count)[i],
    ) by {
        assert(left.skip(count)[i] == left[count + i]);
    }
}

/// The complements of leading coordinates multiply to the weight of index zero.
proof fn lemma_prefix_is_weight(row: Seq<int>, count: nat)
    requires
        count <= row.len(),
    ensures
        evaluator::zero_prefix(mle_laws::integers(), row, count) == mle_laws::weight(
            row.take(count as int),
            0,
        ),
    decreases count,
{
    if count > 0 {
        lemma_prefix_is_weight(row, (count - 1) as nat);
        let prefix = row.take(count as int);
        assert(prefix.drop_last() =~= row.take(count - 1));
        mle_laws::lemma_weight_unfold(prefix, 0);
    }
}

proof fn lemma_prefix_pairs_are_weights(row: Seq<int>, column: Seq<int>, count: nat)
    requires
        count <= row.len(),
        count <= column.len(),
    ensures
        evaluator::zero_prefix_pairs(mle_laws::integers(), row, column, count) == mle_laws::weight(
            row.take(count as int),
            0,
        ) * mle_laws::weight(column.take(count as int), 0),
    decreases count,
{
    if count > 0 {
        let fewer = (count - 1) as nat;
        lemma_prefix_pairs_are_weights(row, column, fewer);
        let first = row.take(count as int);
        let second = column.take(count as int);
        assert(first.drop_last() =~= row.take(count - 1));
        assert(second.drop_last() =~= column.take(count - 1));
        mle_laws::lemma_weight_unfold(first, 0);
        mle_laws::lemma_weight_unfold(second, 0);
        let a = mle_laws::weight(row.take(fewer as int), 0);
        let b = mle_laws::weight(column.take(fewer as int), 0);
        let x = 1 - row[count - 1];
        let y = 1 - column[count - 1];
        assert((a * b) * (x * y) == (a * x) * (b * y)) by (nonlinear_arith);
    } else {
        assert(row.take(0).len() == 0);
        assert(column.take(0).len() == 0);
        assert(1int * 1int == 1);
    }
}

/// The weight of a small index in a padded domain.
proof fn lemma_padded_weight(point: Seq<int>, extra: nat, index: int)
    requires
        extra <= point.len(),
        0 <= index < vstd::arithmetic::power2::pow2((point.len() - extra) as nat),
    ensures
        mle_laws::weight(point, index) == mle_laws::weight(point.take(extra as int), 0)
            * mle_laws::weight(point.skip(extra as int), index),
{
    let high = point.take(extra as int);
    let low = point.skip(extra as int);
    assert(high + low =~= point);
    mle_laws::lemma_weight_split(high, low, 0, index);
    assert(0 * vstd::arithmetic::power2::pow2(low.len()) == 0) by (nonlinear_arith);
}

/// Over the integers, a zero-padded matrix evaluation is the complete scan at
/// the points of the larger domain.
pub proof fn padded_matrix_evaluation_is_the_complete_scan(
    matrix: MatrixModel,
    row: Seq<int>,
    column: Seq<int>,
)
    requires
        matrix.wf(),
        row.len() == column.len(),
        powers::ceil_log2(matrix.dimension()) <= row.len(),
    ensures
        evaluator::padded_matrix_value(mle_laws::integers(), matrix, row, column)
            == scan_laws::matrix_scan(matrix, row, column),
{
    let natural = powers::ceil_log2(matrix.dimension());
    let extra = (row.len() - natural) as nat;
    let dimension = matrix.dimension();
    let tail = row.skip(extra as int);
    let column_tail = column.skip(extra as int);
    powers::lemma_padded(dimension);
    scan_laws::matrix_evaluation_is_the_complete_scan(matrix, tail, column_tail);
    lemma_prefix_pairs_are_weights(row, column, extra);
    let a = mle_laws::weight(row.take(extra as int), 0);
    let b = mle_laws::weight(column.take(extra as int), 0);
    let short = |i: int|
        sums::sum_below(
            matrix.dimension(),
            |j: int| matrix.coefficient(i, j) * scan_laws::weight_pair(tail, column_tail, i, j),
        );
    let long = |i: int|
        sums::sum_below(
            matrix.dimension(),
            |j: int| matrix.coefficient(i, j) * scan_laws::weight_pair(row, column, i, j),
        );
    assert forall|i: int| 0 <= i < dimension implies #[trigger] long(i) == (a * b) * short(i) by {
        lemma_padded_weight(row, extra, i);
        let entry = |j: int|
            matrix.coefficient(i, j) * scan_laws::weight_pair(tail, column_tail, i, j);
        let full = |j: int| matrix.coefficient(i, j) * scan_laws::weight_pair(row, column, i, j);
        assert forall|j: int| 0 <= j < dimension implies #[trigger] full(j) == (a * b) * entry(
            j,
        ) by {
            lemma_padded_weight(column, extra, j);
            let m = matrix.coefficient(i, j);
            let u = mle_laws::weight(tail, i);
            let v = mle_laws::weight(column_tail, j);
            assert((a * u) * (b * v) == (a * b) * (u * v)) by (nonlinear_arith);
            let ab = a * b;
            let uv = u * v;
            assert(m * (ab * uv) == ab * (m * uv)) by (nonlinear_arith);
        }
        sums::lemma_sum_equal(dimension, full, |j: int| (a * b) * entry(j));
        sums::lemma_sum_scale(dimension, a * b, entry);
    }
    sums::lemma_sum_equal(dimension, long, |i: int| (a * b) * short(i));
    sums::lemma_sum_scale(dimension, a * b, short);
}

/// Over the integers, a zero-padded right-hand-side evaluation is the complete
/// scan at the point of the larger domain.
pub proof fn padded_rhs_evaluation_is_the_complete_scan(rhs: RhsModel, row: Seq<int>)
    requires
        rhs.wf(),
        powers::ceil_log2(rhs.dimension()) <= row.len(),
    ensures
        evaluator::padded_rhs_value(mle_laws::integers(), rhs, row) == scan_laws::rhs_scan(
            rhs,
            row,
        ),
{
    let natural = powers::ceil_log2(rhs.dimension());
    let extra = (row.len() - natural) as nat;
    let dimension = rhs.dimension();
    let tail = row.skip(extra as int);
    powers::lemma_padded(dimension);
    scan_laws::rhs_evaluation_is_the_complete_scan(rhs, tail);
    lemma_prefix_is_weight(row, extra);
    let a = mle_laws::weight(row.take(extra as int), 0);
    let short = |i: int| rhs.mantissa(i) * mle_laws::weight(tail, i);
    let long = |i: int| rhs.mantissa(i) * mle_laws::weight(row, i);
    assert forall|i: int| 0 <= i < dimension implies #[trigger] long(i) == a * short(i) by {
        lemma_padded_weight(row, extra, i);
        let m = rhs.mantissa(i);
        let u = mle_laws::weight(tail, i);
        assert(m * (a * u) == a * (m * u)) by (nonlinear_arith);
    }
    sums::lemma_sum_equal(dimension, long, |i: int| a * short(i));
    sums::lemma_sum_scale(dimension, a, short);
}

/// A scalar arithmetic that computes modulo a positive number, each scalar
/// standing for its residue.
pub open spec fn computes_modulo<S>(
    ops: ScalarOps<S>,
    modulus: int,
    residue: spec_fn(S) -> int,
) -> bool {
    &&& 0 < modulus
    &&& forall|a: S| 0 <= #[trigger] residue(a) < modulus
    &&& residue(ops.zero) == 0
    &&& residue(ops.one) == 1int % modulus
    &&& forall|value: int| residue(#[trigger] (ops.embed)(value)) == value % modulus
    &&& forall|a: S, b: S|
        residue(#[trigger] (ops.sum)(a, b)) == (residue(a) + residue(b)) % modulus
    &&& forall|a: S, b: S|
        residue(#[trigger] (ops.difference)(a, b)) == (residue(a) - residue(b)) % modulus
    &&& forall|a: S, b: S|
        residue(#[trigger] (ops.product)(a, b)) == (residue(a) * residue(b)) % modulus
}

/// A scalar stands for an integer modulo a number.
spec fn congruent<S>(modulus: int, residue: spec_fn(S) -> int) -> spec_fn(S, int) -> bool {
    |scalar: S, value: int| residue(scalar) == value % modulus
}

proof fn lemma_modular_keeps<S>(ops: ScalarOps<S>, modulus: int, residue: spec_fn(S) -> int)
    requires
        computes_modulo(ops, modulus, residue),
    ensures
        keeps(ops, mle_laws::integers(), congruent(modulus, residue)),
{
    reveal(keeps);
    let related = congruent(modulus, residue);
    let integers = mle_laws::integers();
    assert(0int % modulus == 0) by {
        vstd::arithmetic::div_mod::lemma_small_mod(0, modulus as nat);
    }
    assert forall|a: S, b: S, c: int, d: int| related(a, c) && related(b, d) implies related(
        #[trigger] (ops.sum)(a, b),
        #[trigger] (integers.sum)(c, d),
    ) by {
        vstd::arithmetic::div_mod::lemma_add_mod_noop(c, d, modulus);
    }
    assert forall|a: S, b: S, c: int, d: int| related(a, c) && related(b, d) implies related(
        #[trigger] (ops.difference)(a, b),
        #[trigger] (integers.difference)(c, d),
    ) by {
        vstd::arithmetic::div_mod::lemma_sub_mod_noop(c, d, modulus);
    }
    assert forall|a: S, b: S, c: int, d: int| related(a, c) && related(b, d) implies related(
        #[trigger] (ops.product)(a, b),
        #[trigger] (integers.product)(c, d),
    ) by {
        vstd::arithmetic::div_mod::lemma_mul_mod_noop_general(c, d, modulus);
    }
}

/// The residues of a point's coordinates.
pub open spec fn residues<S>(residue: spec_fn(S) -> int, point: Seq<S>) -> Seq<int> {
    point.map_values(residue)
}

proof fn lemma_residue_point<S>(
    ops: ScalarOps<S>,
    modulus: int,
    residue: spec_fn(S) -> int,
    point: Seq<S>,
)
    requires
        computes_modulo(ops, modulus, residue),
    ensures
        points(congruent(modulus, residue), point, residues(residue, point)),
{
    assert forall|i: int| 0 <= i < point.len() implies congruent(modulus, residue)(
        #[trigger] point[i],
        residues(residue, point)[i],
    ) by {
        vstd::arithmetic::div_mod::lemma_small_mod(residue(point[i]) as nat, modulus as nat);
    }
}

/// In residues, matrix evaluations of both kinds are the complete scan reduced
/// by the modulus.
pub proof fn modular_matrix_evaluation_is_the_reduced_scan<S>(
    ops: ScalarOps<S>,
    modulus: int,
    residue: spec_fn(S) -> int,
    matrix: MatrixModel,
    row: Seq<S>,
    column: Seq<S>,
)
    requires
        computes_modulo(ops, modulus, residue),
        matrix.wf(),
        row.len() == column.len(),
        powers::ceil_log2(matrix.dimension()) <= row.len(),
    ensures
        row.len() == powers::ceil_log2(matrix.dimension()) ==> residue(
            evaluation::matrix_value(ops, matrix, row, column),
        ) == scan_laws::matrix_scan(matrix, residues(residue, row), residues(residue, column))
            % modulus,
        residue(evaluator::padded_matrix_value(ops, matrix, row, column)) == scan_laws::matrix_scan(
            matrix,
            residues(residue, row),
            residues(residue, column),
        ) % modulus,
{
    let integers = mle_laws::integers();
    let related = congruent(modulus, residue);
    let p = residues(residue, row);
    let q = residues(residue, column);
    lemma_modular_keeps(ops, modulus, residue);
    lemma_residue_point(ops, modulus, residue, row);
    lemma_residue_point(ops, modulus, residue, column);
    if row.len() == powers::ceil_log2(matrix.dimension()) {
        related_scalars_give_related_matrix_values(
            ops,
            integers,
            related,
            matrix,
            row,
            column,
            p,
            q,
        );
        scan_laws::matrix_evaluation_is_the_complete_scan(matrix, p, q);
    }
    let extra = (row.len() - powers::ceil_log2(matrix.dimension())) as nat;
    let skip = extra as int;
    lemma_zero_prefix_pairs(ops, integers, related, row, column, p, q, extra);
    lemma_skip(related, row, p, skip);
    lemma_skip(related, column, q, skip);
    related_scalars_give_related_matrix_values(
        ops,
        integers,
        related,
        matrix,
        row.skip(skip),
        column.skip(skip),
        p.skip(skip),
        q.skip(skip),
    );
    lemma_product(
        ops,
        integers,
        related,
        evaluator::zero_prefix_pairs(ops, row, column, extra),
        evaluation::matrix_value(ops, matrix, row.skip(skip), column.skip(skip)),
        evaluator::zero_prefix_pairs(integers, p, q, extra),
        evaluation::matrix_value(integers, matrix, p.skip(skip), q.skip(skip)),
    );
    padded_matrix_evaluation_is_the_complete_scan(matrix, p, q);
}

/// In residues, right-hand-side evaluations of both kinds are the complete
/// scan reduced by the modulus.
pub proof fn modular_rhs_evaluation_is_the_reduced_scan<S>(
    ops: ScalarOps<S>,
    modulus: int,
    residue: spec_fn(S) -> int,
    rhs: RhsModel,
    row: Seq<S>,
)
    requires
        computes_modulo(ops, modulus, residue),
        rhs.wf(),
        powers::ceil_log2(rhs.dimension()) <= row.len(),
    ensures
        row.len() == powers::ceil_log2(rhs.dimension()) ==> residue(
            evaluation::rhs_value(ops, rhs, row),
        ) == scan_laws::rhs_scan(rhs, residues(residue, row)) % modulus,
        residue(evaluator::padded_rhs_value(ops, rhs, row)) == scan_laws::rhs_scan(
            rhs,
            residues(residue, row),
        ) % modulus,
{
    let integers = mle_laws::integers();
    let related = congruent(modulus, residue);
    let p = residues(residue, row);
    lemma_modular_keeps(ops, modulus, residue);
    lemma_residue_point(ops, modulus, residue, row);
    if row.len() == powers::ceil_log2(rhs.dimension()) {
        related_scalars_give_related_rhs_values(ops, integers, related, rhs, row, p);
        scan_laws::rhs_evaluation_is_the_complete_scan(rhs, p);
    }
    let extra = (row.len() - powers::ceil_log2(rhs.dimension())) as nat;
    let skip = extra as int;
    lemma_zero_prefix(ops, integers, related, row, p, extra);
    lemma_skip(related, row, p, skip);
    related_scalars_give_related_rhs_values(
        ops,
        integers,
        related,
        rhs,
        row.skip(skip),
        p.skip(skip),
    );
    lemma_product(
        ops,
        integers,
        related,
        evaluator::zero_prefix(ops, row, extra),
        evaluation::rhs_value(ops, rhs, row.skip(skip)),
        evaluator::zero_prefix(integers, p, extra),
        evaluation::rhs_value(integers, rhs, p.skip(skip)),
    );
    padded_rhs_evaluation_is_the_complete_scan(rhs, p);
}

} // verus!
