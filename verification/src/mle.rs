//! Scalar operations and the bit-serial automata of the public evaluators.

use vstd::arithmetic::power2::*;
use vstd::prelude::*;

use crate::powers;

verus! {

/// The operations of a scalar interpretation.
#[verifier::reject_recursive_types(S)]
pub struct ScalarOps<S> {
    pub zero: S,
    pub one: S,
    pub embed: spec_fn(int) -> S,
    pub sum: spec_fn(S, S) -> S,
    pub difference: spec_fn(S, S) -> S,
    pub product: spec_fn(S, S) -> S,
}

/// Scalar operations required by the backend-neutral evaluator.
///
/// Exact backends normally implement this trait for their field element. The
/// evaluator requests operations one at a time and never calls a fused
/// multiply-add, so the same plan also fixes the operation order of
/// approximate scalars.
pub trait MleInterpreter {
    /// Scalar evaluated by this interpreter. The interpreter, rather than the
    /// scalar type, owns the implementation so that other crates can use
    /// scalars from third-party crates.
    type Scalar: Copy;

    /// What the operations compute. An implementation that is not verified
    /// leaves it unsaid.
    closed spec fn ops(&self) -> ScalarOps<Self::Scalar> {
        arbitrary()
    }

    fn zero(&self) -> (value: Self::Scalar)
        ensures
            value == self.ops().zero,
    ;

    fn one(&self) -> (value: Self::Scalar)
        ensures
            value == self.ops().one,
    ;

    fn embed_i64(&self, value: i64) -> (scalar: Self::Scalar)
        ensures
            scalar == (self.ops().embed)(value as int),
    ;

    fn add(&self, left: Self::Scalar, right: Self::Scalar) -> (value: Self::Scalar)
        ensures
            value == (self.ops().sum)(left, right),
    ;

    fn sub(&self, left: Self::Scalar, right: Self::Scalar) -> (value: Self::Scalar)
        ensures
            value == (self.ops().difference)(left, right),
    ;

    fn mul(&self, left: Self::Scalar, right: Self::Scalar) -> (value: Self::Scalar)
        ensures
            value == (self.ops().product)(left, right),
    ;
}

/// Arithmetic performed by one public evaluation.
#[derive(Clone, Copy, Debug, PartialEq, Eq, Hash, Structural)]
pub struct PublicEvaluationWork {
    pub periodic_terms: u64,
    pub additions: u64,
    pub subtractions: u64,
    pub multiplications: u64,
}

impl Default for PublicEvaluationWork {
    fn default() -> (work: Self)
        ensures
            work@ == no_work(),
    {
        PublicEvaluationWork {
            periodic_terms: 0,
            additions: 0,
            subtractions: 0,
            multiplications: 0,
        }
    }
}

impl PublicEvaluationWork {
    pub fn arithmetic_operations(self) -> (operations: u64)
        requires
            self.additions + self.subtractions + self.multiplications <= u64::MAX,
        ensures
            operations == self@.operations(),
    {
        self.additions + self.subtractions + self.multiplications
    }
}

/// Counts of periodic terms and arithmetic operations.
pub struct Work {
    pub terms: nat,
    pub additions: nat,
    pub subtractions: nat,
    pub multiplications: nat,
}

impl View for PublicEvaluationWork {
    type V = Work;

    open spec fn view(&self) -> Work {
        Work {
            terms: self.periodic_terms as nat,
            additions: self.additions as nat,
            subtractions: self.subtractions as nat,
            multiplications: self.multiplications as nat,
        }
    }
}

/// No work at all.
pub open spec fn no_work() -> Work {
    Work { terms: 0, additions: 0, subtractions: 0, multiplications: 0 }
}

/// Work that consists of arithmetic only.
pub open spec fn operations(additions: nat, subtractions: nat, multiplications: nat) -> Work {
    Work { terms: 0, additions, subtractions, multiplications }
}

impl Work {
    pub open spec fn plus(self, other: Work) -> Work {
        Work {
            terms: self.terms + other.terms,
            additions: self.additions + other.additions,
            subtractions: self.subtractions + other.subtractions,
            multiplications: self.multiplications + other.multiplications,
        }
    }

    pub open spec fn operations(self) -> nat {
        self.additions + self.subtractions + self.multiplications
    }

    /// Every count stays below a bound.
    pub open spec fn below(self, bound: int) -> bool {
        self.terms <= bound && self.additions <= bound && self.subtractions <= bound
            && self.multiplications <= bound
    }
}

/// The factor that an index bit selects at a coordinate.
pub open spec fn bit_factor<S>(ops: ScalarOps<S>, coordinate: S, bit: int) -> S {
    if bit == 0 {
        (ops.difference)(ops.one, coordinate)
    } else {
        coordinate
    }
}

/// The multilinear basis polynomial of an index at a point whose first
/// coordinate is the most significant bit.
pub open spec fn basis<S>(ops: ScalarOps<S>, point: Seq<S>, index: int) -> S
    decreases point.len(),
{
    if point.len() == 0 {
        ops.one
    } else {
        (ops.product)(
            basis(ops, point.drop_last(), index / 2),
            bit_factor(ops, point.last(), index % 2),
        )
    }
}

/// How many of the low `len` bits of an index are zero.
pub open spec fn zero_bits(index: int, len: nat) -> nat
    decreases len,
{
    if len == 0 {
        0
    } else {
        zero_bits(index / 2, (len - 1) as nat) + if index % 2 == 0 {
            1nat
        } else {
            0nat
        }
    }
}

/// Bit `position` of a number.
pub open spec fn bit_of(value: int, position: nat) -> int {
    (value / pow2(position) as int) % 2
}

/// The borrow of subtracting one bit and a borrow from an index bit.
pub open spec fn borrow_out(index_bit: int, limit_bit: int, borrow_in: int) -> int {
    if index_bit < limit_bit + borrow_in {
        1
    } else {
        0
    }
}

/// Adds a term to one of two states.
pub open spec fn deposit<S>(ops: ScalarOps<S>, states: (S, S), at: int, term: S) -> (S, S) {
    if at == 0 {
        ((ops.sum)(states.0, term), states.1)
    } else {
        (states.0, (ops.sum)(states.1, term))
    }
}

/// One step of the comparison automaton: the factors of a zero and of a one
/// index bit move the two borrow states on.
pub open spec fn compare_step<S>(
    ops: ScalarOps<S>,
    states: (S, S),
    limit_bit: int,
    zero_factor: S,
    one_factor: S,
) -> (S, S) {
    let start = (ops.zero, ops.zero);
    let first = deposit(ops, start, borrow_out(0, limit_bit, 0), (ops.product)(states.0, zero_factor));
    let second = deposit(ops, first, borrow_out(1, limit_bit, 0), (ops.product)(states.0, one_factor));
    let third = deposit(ops, second, borrow_out(0, limit_bit, 1), (ops.product)(states.1, zero_factor));
    deposit(ops, third, borrow_out(1, limit_bit, 1), (ops.product)(states.1, one_factor))
}

/// The borrow states after the last `bits` coordinates: the second sums the
/// indices below the low bits of the limit.
pub open spec fn index_states<S>(ops: ScalarOps<S>, point: Seq<S>, limit: int, bits: nat) -> (S, S)
    decreases bits,
{
    if bits == 0 {
        (ops.one, ops.zero)
    } else {
        let position = (bits - 1) as nat;
        let coordinate = point[point.len() - bits];
        compare_step(
            ops,
            index_states(ops, point, limit, position),
            bit_of(limit, position),
            bit_factor(ops, coordinate, 0),
            bit_factor(ops, coordinate, 1),
        )
    }
}

/// The sum of the basis polynomials of all indices below a limit.
pub open spec fn index_sum<S>(ops: ScalarOps<S>, point: Seq<S>, limit: int) -> S {
    if limit == 0 {
        ops.zero
    } else if limit == pow2(point.len()) {
        ops.one
    } else {
        index_states(ops, point, limit, point.len()).1
    }
}

/// The product of the equality polynomials of the first `count` coordinates.
pub open spec fn equality_product<S>(
    ops: ScalarOps<S>,
    left: Seq<S>,
    right: Seq<S>,
    count: nat,
) -> S
    decreases count,
{
    if count == 0 {
        ops.one
    } else {
        let l = left[count - 1];
        let r = right[count - 1];
        (ops.product)(
            equality_product(ops, left, right, (count - 1) as nat),
            (ops.sum)(
                (ops.product)((ops.difference)(ops.one, l), (ops.difference)(ops.one, r)),
                (ops.product)(l, r),
            ),
        )
    }
}

/// The borrow states for pairs of equal indices.
pub open spec fn equal_states<S>(
    ops: ScalarOps<S>,
    left: Seq<S>,
    right: Seq<S>,
    limit: int,
    bits: nat,
) -> (S, S)
    decreases bits,
{
    if bits == 0 {
        (ops.one, ops.zero)
    } else {
        let position = (bits - 1) as nat;
        let l = left[left.len() - bits];
        let r = right[left.len() - bits];
        compare_step(
            ops,
            equal_states(ops, left, right, limit, position),
            bit_of(limit, position),
            (ops.product)(bit_factor(ops, l, 0), bit_factor(ops, r, 0)),
            (ops.product)(bit_factor(ops, l, 1), bit_factor(ops, r, 1)),
        )
    }
}

/// The sum of the products of the two basis polynomials of all indices below a
/// limit.
pub open spec fn equal_sum<S>(ops: ScalarOps<S>, left: Seq<S>, right: Seq<S>, limit: int) -> S {
    if limit == 0 {
        ops.zero
    } else if limit == pow2(left.len()) {
        equality_product(ops, left, right, left.len())
    } else {
        equal_states(ops, left, right, limit, left.len()).1
    }
}

/// Four states, by carry and borrow.
#[verifier::reject_recursive_types(S)]
pub struct CarryStates<S> {
    /// Carry zero: borrow zero and one.
    pub low: (S, S),
    /// Carry one: borrow zero and one.
    pub high: (S, S),
}

/// Adds a term to one of four states.
pub open spec fn deposit_carry<S>(
    ops: ScalarOps<S>,
    states: CarryStates<S>,
    carry: int,
    borrow: int,
    term: S,
) -> CarryStates<S> {
    if carry == 0 {
        CarryStates { low: deposit(ops, states.low, borrow, term), high: states.high }
    } else {
        CarryStates { low: states.low, high: deposit(ops, states.high, borrow, term) }
    }
}

/// What one state and one index bit add to the next states of the shifted
/// comparison automaton.
pub open spec fn shifted_term<S>(
    ops: ScalarOps<S>,
    next: CarryStates<S>,
    state: S,
    carry_in: int,
    borrow_in: int,
    index_bit: int,
    limit_bit: int,
    shift_bit: int,
    left: S,
    right: S,
) -> CarryStates<S> {
    let total = index_bit + shift_bit + carry_in;
    let pair = (ops.product)(
        bit_factor(ops, left, index_bit),
        bit_factor(ops, right, total % 2),
    );
    deposit_carry(
        ops,
        next,
        total / 2,
        borrow_out(index_bit, limit_bit, borrow_in),
        (ops.product)(state, pair),
    )
}

/// One step of the shifted comparison automaton.
pub open spec fn shifted_step<S>(
    ops: ScalarOps<S>,
    states: CarryStates<S>,
    limit_bit: int,
    shift_bit: int,
    left: S,
    right: S,
) -> CarryStates<S> {
    let zero = ops.zero;
    let start = CarryStates { low: (zero, zero), high: (zero, zero) };
    let a = shifted_term(ops, start, states.low.0, 0, 0, 0, limit_bit, shift_bit, left, right);
    let b = shifted_term(ops, a, states.low.0, 0, 0, 1, limit_bit, shift_bit, left, right);
    let c = shifted_term(ops, b, states.low.1, 0, 1, 0, limit_bit, shift_bit, left, right);
    let d = shifted_term(ops, c, states.low.1, 0, 1, 1, limit_bit, shift_bit, left, right);
    let e = shifted_term(ops, d, states.high.0, 1, 0, 0, limit_bit, shift_bit, left, right);
    let f = shifted_term(ops, e, states.high.0, 1, 0, 1, limit_bit, shift_bit, left, right);
    let g = shifted_term(ops, f, states.high.1, 1, 1, 0, limit_bit, shift_bit, left, right);
    shifted_term(ops, g, states.high.1, 1, 1, 1, limit_bit, shift_bit, left, right)
}

/// The carry and borrow states after the last `bits` coordinates.
pub open spec fn shifted_states<S>(
    ops: ScalarOps<S>,
    left: Seq<S>,
    right: Seq<S>,
    limit: int,
    shift: int,
    carry: int,
    bits: nat,
) -> CarryStates<S>
    decreases bits,
{
    if bits == 0 {
        let zero = ops.zero;
        if carry == 0 {
            CarryStates { low: (ops.one, zero), high: (zero, zero) }
        } else {
            CarryStates { low: (zero, zero), high: (ops.one, zero) }
        }
    } else {
        let position = (bits - 1) as nat;
        shifted_step(
            ops,
            shifted_states(ops, left, right, limit, shift, carry, position),
            bit_of(limit, position),
            bit_of(shift, position),
            left[left.len() - bits],
            right[left.len() - bits],
        )
    }
}

/// The sum, over all indices below a limit, of the product of the left basis
/// polynomial of the index and the right one of the index plus a shift and a
/// carry.
pub open spec fn shifted_sum<S>(
    ops: ScalarOps<S>,
    left: Seq<S>,
    right: Seq<S>,
    limit: int,
    shift: int,
    carry: int,
) -> S {
    shifted_states(ops, left, right, limit, shift, carry, left.len()).low.1
}

/// Work of one basis polynomial.
pub open spec fn basis_work(index: int, len: nat) -> Work {
    operations(0, zero_bits(index, len), len)
}

/// Work of one index sum.
pub open spec fn index_sum_work(limit: int, len: nat) -> Work {
    if limit == 0 || limit == pow2(len) {
        no_work()
    } else {
        operations(4 * len, 2 * len, 4 * len)
    }
}

/// Work of one equality sum.
pub open spec fn equal_sum_work(limit: int, len: nat) -> Work {
    if limit == 0 {
        no_work()
    } else if limit == pow2(len) {
        operations(len, 2 * len, 3 * len)
    } else {
        operations(4 * len, 4 * len, 8 * len)
    }
}

/// Work of one shifted sum.
pub open spec fn shifted_sum_work(len: nat) -> Work {
    operations(8 * len, 8 * len, 16 * len)
}

pub proof fn lemma_zero_bits(index: int, len: nat)
    ensures
        zero_bits(index, len) <= len,
    decreases len,
{
    if len > 0 {
        lemma_zero_bits(index / 2, (len - 1) as nat);
    }
}

/// Counters stay clear of overflow below this value.
pub const WORK_LIMIT: u64 = 1152921504606846976;

/// Counted operations of one interpreter.
pub(crate) struct Arithmetic<'a, I> {
    pub(crate) interpreter: &'a I,
    pub(crate) work: PublicEvaluationWork,
}

impl<'a, I: MleInterpreter> Arithmetic<'a, I> {
    pub(crate) open spec fn ops(&self) -> ScalarOps<I::Scalar> {
        self.interpreter.ops()
    }

    pub(crate) fn new(interpreter: &'a I) -> (arithmetic: Arithmetic<'a, I>)
        ensures
            arithmetic.ops() == interpreter.ops(),
            arithmetic.work@ == no_work(),
    {
        Arithmetic { interpreter, work: PublicEvaluationWork::default() }
    }

    pub(crate) fn zero(&self) -> (value: I::Scalar)
        ensures
            value == self.ops().zero,
    {
        self.interpreter.zero()
    }

    pub(crate) fn one(&self) -> (value: I::Scalar)
        ensures
            value == self.ops().one,
    {
        self.interpreter.one()
    }

    pub(crate) fn embed_i64(&self, value: i64) -> (scalar: I::Scalar)
        ensures
            scalar == (self.ops().embed)(value as int),
    {
        self.interpreter.embed_i64(value)
    }

    pub(crate) fn plus(&mut self, left: I::Scalar, right: I::Scalar) -> (value: I::Scalar)
        requires
            old(self).work.additions < u64::MAX,
        ensures
            final(self).ops() == old(self).ops(),
            final(self).work@ == old(self).work@.plus(operations(1, 0, 0)),
            value == (old(self).ops().sum)(left, right),
    {
        self.work.additions = self.work.additions + 1;
        self.interpreter.add(left, right)
    }

    pub(crate) fn minus(&mut self, left: I::Scalar, right: I::Scalar) -> (value: I::Scalar)
        requires
            old(self).work.subtractions < u64::MAX,
        ensures
            final(self).ops() == old(self).ops(),
            final(self).work@ == old(self).work@.plus(operations(0, 1, 0)),
            value == (old(self).ops().difference)(left, right),
    {
        self.work.subtractions = self.work.subtractions + 1;
        self.interpreter.sub(left, right)
    }

    pub(crate) fn times(&mut self, left: I::Scalar, right: I::Scalar) -> (value: I::Scalar)
        requires
            old(self).work.multiplications < u64::MAX,
        ensures
            final(self).ops() == old(self).ops(),
            final(self).work@ == old(self).work@.plus(operations(0, 0, 1)),
            value == (old(self).ops().product)(left, right),
    {
        self.work.multiplications = self.work.multiplications + 1;
        self.interpreter.mul(left, right)
    }
}

/// The largest number of coordinates of a public evaluation domain.
pub const MAX_VARIABLES: usize = 30;

/// The work added by bit-factor evaluations.
pub(crate) open spec fn factor_work(bit: int) -> Work {
    if bit == 0 {
        operations(0, 1, 0)
    } else {
        no_work()
    }
}

fn bit_weight<I: MleInterpreter>(
    arithmetic: &mut Arithmetic<'_, I>,
    coordinate: I::Scalar,
    bit: usize,
) -> (factor: I::Scalar)
    requires
        old(arithmetic).work.subtractions < u64::MAX,
    ensures
        final(arithmetic).ops() == old(arithmetic).ops(),
        final(arithmetic).work@ == old(arithmetic).work@.plus(factor_work(bit as int)),
        factor == bit_factor(old(arithmetic).ops(), coordinate, bit as int),
{
    if bit == 0 {
        let one = arithmetic.one();
        arithmetic.minus(one, coordinate)
    } else {
        coordinate
    }
}

proof fn lemma_halve(index: int, position: nat)
    requires
        0 <= index,
    ensures
        (index / pow2(position) as int) / 2 == index / pow2(position + 1) as int,
        pow2(position + 1) == 2 * pow2(position),
        0 < pow2(position),
{
    lemma_pow2_pos(position);
    lemma_pow2_unfold(position + 1);
    vstd::arithmetic::div_mod::lemma_div_denominator(index, pow2(position) as int, 2);
    assert(pow2(position) as int * 2 == pow2(position + 1));
}

/// The multilinear basis polynomial of an index.
pub(crate) fn eq_index<I: MleInterpreter>(
    arithmetic: &mut Arithmetic<'_, I>,
    point: &[I::Scalar],
    index: usize,
) -> (value: I::Scalar)
    requires
        point@.len() <= MAX_VARIABLES,
        index < pow2(point@.len()),
        old(arithmetic).work@.below(WORK_LIMIT as int),
    ensures
        final(arithmetic).ops() == old(arithmetic).ops(),
        final(arithmetic).work@ == old(arithmetic).work@.plus(
            basis_work(index as int, point@.len()),
        ),
        value == basis(old(arithmetic).ops(), point@, index as int),
{
    let ghost ops = arithmetic.ops();
    let ghost start = arithmetic.work@;
    let ghost len = point@.len();
    let mut divisor: usize = powers::power_of_two(point.len() as u32);
    let mut value = arithmetic.one();
    let mut count: usize = 0;
    while count < point.len()
        invariant
            len == point@.len(),
            len <= MAX_VARIABLES,
            count <= len,
            arithmetic.ops() == ops,
            start == old(arithmetic).work@,
            start.below(WORK_LIMIT as int),
            divisor == pow2((len - count) as nat),
            value == basis(ops, point@.take(count as int), index as int / divisor as int),
            arithmetic.work@ == start.plus(
                operations(0, zero_bits(index as int / divisor as int, count as nat), count as nat),
            ),
            zero_bits(index as int / divisor as int, count as nat) <= count,
        decreases len - count,
    {
        proof {
            lemma_halve(index as int, (len - count - 1) as nat);
            assert(point@.take(count + 1).drop_last() =~= point@.take(count as int));
        }
        divisor = divisor / 2;
        let bit: usize = (index / divisor) % 2;
        let factor = bit_weight(arithmetic, point[count], bit);
        value = arithmetic.times(value, factor);
        proof {
            lemma_zero_bits(index as int / divisor as int, (count + 1) as nat);
        }
        count = count + 1;
    }
    proof {
        lemma2_to64();
        assert(point@.take(count as int) =~= point@);
        assert(index as int / 1 == index);
    }
    value
}

fn borrows(index_bit: usize, limit_bit: usize, borrow_in: usize) -> (borrow: bool)
    requires
        limit_bit <= 1,
        borrow_in <= 1,
    ensures
        borrow == (borrow_out(index_bit as int, limit_bit as int, borrow_in as int) == 1),
{
    index_bit < limit_bit + borrow_in
}

/// Multiplies a state by a factor and adds it to one of two next states.
fn advance<I: MleInterpreter>(
    arithmetic: &mut Arithmetic<'_, I>,
    next: (I::Scalar, I::Scalar),
    borrow: bool,
    state: I::Scalar,
    factor: I::Scalar,
) -> (states: (I::Scalar, I::Scalar))
    requires
        old(arithmetic).work.additions < u64::MAX,
        old(arithmetic).work.multiplications < u64::MAX,
    ensures
        final(arithmetic).ops() == old(arithmetic).ops(),
        final(arithmetic).work@ == old(arithmetic).work@.plus(operations(1, 0, 1)),
        states == deposit(
            old(arithmetic).ops(),
            next,
            if borrow {
                1
            } else {
                0
            },
            (old(arithmetic).ops().product)(state, factor),
        ),
{
    let term = arithmetic.times(state, factor);
    if borrow {
        (next.0, arithmetic.plus(next.1, term))
    } else {
        (arithmetic.plus(next.0, term), next.1)
    }
}

/// The sum of the basis polynomials of all indices below a limit.
///
/// Subtracts the limit from the index, least significant bit first; the final
/// borrow is one exactly for indices below the limit.
pub(crate) fn bounded_index_sum<I: MleInterpreter>(
    arithmetic: &mut Arithmetic<'_, I>,
    point: &[I::Scalar],
    limit: usize,
) -> (value: I::Scalar)
    requires
        point@.len() <= MAX_VARIABLES,
        limit <= pow2(point@.len()),
        old(arithmetic).work@.below(WORK_LIMIT as int),
    ensures
        final(arithmetic).ops() == old(arithmetic).ops(),
        final(arithmetic).work@ == old(arithmetic).work@.plus(
            index_sum_work(limit as int, point@.len()),
        ),
        value == index_sum(old(arithmetic).ops(), point@, limit as int),
{
    let ghost ops = arithmetic.ops();
    let ghost start = arithmetic.work@;
    let ghost len = point@.len();
    let domain: usize = powers::power_of_two(point.len() as u32);
    if limit == 0 {
        return arithmetic.zero();
    }
    if limit == domain {
        return arithmetic.one();
    }
    let mut states = (arithmetic.one(), arithmetic.zero());
    let mut divisor: usize = 1;
    let mut bit: usize = 0;
    proof {
        lemma2_to64();
    }
    while bit < point.len()
        invariant
            len == point@.len(),
            len <= MAX_VARIABLES,
            bit <= len,
            arithmetic.ops() == ops,
            start == old(arithmetic).work@,
            start.below(WORK_LIMIT as int),
            divisor == pow2(bit as nat),
            divisor <= domain,
            domain == pow2(len),
            domain <= 0x4000_0000,
            states == index_states(ops, point@, limit as int, bit as nat),
            arithmetic.work@ == start.plus(
                operations(4 * bit as nat, 2 * bit as nat, 4 * bit as nat),
            ),
        decreases len - bit,
    {
        let coordinate = point[point.len() - 1 - bit];
        proof {
            lemma_pow2_pos(bit as nat);
        }
        let limit_bit: usize = (limit / divisor) % 2;
        let zero = arithmetic.zero();
        let factor = bit_weight(arithmetic, coordinate, 0);
        let next = advance(
            arithmetic,
            (zero, zero),
            borrows(0, limit_bit, 0),
            states.0,
            factor,
        );
        let factor = bit_weight(arithmetic, coordinate, 1);
        let next = advance(arithmetic, next, borrows(1, limit_bit, 0), states.0, factor);
        let factor = bit_weight(arithmetic, coordinate, 0);
        let next = advance(arithmetic, next, borrows(0, limit_bit, 1), states.1, factor);
        let factor = bit_weight(arithmetic, coordinate, 1);
        states = advance(arithmetic, next, borrows(1, limit_bit, 1), states.1, factor);
        proof {
            lemma_halve(limit as int, bit as nat);
            if bit + 1 < len {
                lemma_pow2_strictly_increases((bit + 1) as nat, len);
            }
            assert(index_states(ops, point@, limit as int, (bit + 1) as nat) == states);
        }
        divisor = divisor * 2;
        bit = bit + 1;
    }
    states.1
}

/// The product of two bit factors.
fn pair_weight<I: MleInterpreter>(
    arithmetic: &mut Arithmetic<'_, I>,
    left: I::Scalar,
    left_bit: usize,
    right: I::Scalar,
    right_bit: usize,
) -> (factor: I::Scalar)
    requires
        old(arithmetic).work.subtractions < u64::MAX - 1,
        old(arithmetic).work.multiplications < u64::MAX,
    ensures
        final(arithmetic).ops() == old(arithmetic).ops(),
        final(arithmetic).work@ == old(arithmetic).work@.plus(factor_work(left_bit as int)).plus(
            factor_work(right_bit as int),
        ).plus(operations(0, 0, 1)),
        factor == (old(arithmetic).ops().product)(
            bit_factor(old(arithmetic).ops(), left, left_bit as int),
            bit_factor(old(arithmetic).ops(), right, right_bit as int),
        ),
{
    let left_weight = bit_weight(arithmetic, left, left_bit);
    let right_weight = bit_weight(arithmetic, right, right_bit);
    arithmetic.times(left_weight, right_weight)
}

/// The sum of the products of the two basis polynomials of all indices below a
/// limit.
pub(crate) fn bounded_equal_indices<I: MleInterpreter>(
    arithmetic: &mut Arithmetic<'_, I>,
    left: &[I::Scalar],
    right: &[I::Scalar],
    limit: usize,
) -> (value: I::Scalar)
    requires
        left@.len() == right@.len(),
        left@.len() <= MAX_VARIABLES,
        limit <= pow2(left@.len()),
        old(arithmetic).work@.below(WORK_LIMIT as int),
    ensures
        final(arithmetic).ops() == old(arithmetic).ops(),
        final(arithmetic).work@ == old(arithmetic).work@.plus(
            equal_sum_work(limit as int, left@.len()),
        ),
        value == equal_sum(old(arithmetic).ops(), left@, right@, limit as int),
{
    let ghost ops = arithmetic.ops();
    let ghost start = arithmetic.work@;
    let ghost len = left@.len();
    let domain: usize = powers::power_of_two(left.len() as u32);
    if limit == 0 {
        return arithmetic.zero();
    }
    if limit == domain {
        let mut result = arithmetic.one();
        let mut count: usize = 0;
        while count < left.len()
            invariant
                len == left@.len(),
                len == right@.len(),
                len <= MAX_VARIABLES,
                count <= len,
                arithmetic.ops() == ops,
                start == old(arithmetic).work@,
                start.below(WORK_LIMIT as int),
                result == equality_product(ops, left@, right@, count as nat),
                arithmetic.work@ == start.plus(
                    operations(count as nat, 2 * count as nat, 3 * count as nat),
                ),
            decreases len - count,
        {
            let left_coordinate = left[count];
            let right_coordinate = right[count];
            let one = arithmetic.one();
            let left_zero = arithmetic.minus(one, left_coordinate);
            let one = arithmetic.one();
            let right_zero = arithmetic.minus(one, right_coordinate);
            let zero_pair = arithmetic.times(left_zero, right_zero);
            let one_pair = arithmetic.times(left_coordinate, right_coordinate);
            let equal = arithmetic.plus(zero_pair, one_pair);
            result = arithmetic.times(result, equal);
            count = count + 1;
        }
        return result;
    }
    let mut states = (arithmetic.one(), arithmetic.zero());
    let mut divisor: usize = 1;
    let mut bit: usize = 0;
    proof {
        lemma2_to64();
    }
    while bit < left.len()
        invariant
            len == left@.len(),
            len == right@.len(),
            len <= MAX_VARIABLES,
            bit <= len,
            arithmetic.ops() == ops,
            start == old(arithmetic).work@,
            start.below(WORK_LIMIT as int),
            divisor == pow2(bit as nat),
            divisor <= domain,
            domain == pow2(len),
            domain <= 0x4000_0000,
            states == equal_states(ops, left@, right@, limit as int, bit as nat),
            arithmetic.work@ == start.plus(
                operations(4 * bit as nat, 4 * bit as nat, 8 * bit as nat),
            ),
        decreases len - bit,
    {
        let l = left[left.len() - 1 - bit];
        let r = right[left.len() - 1 - bit];
        proof {
            lemma_pow2_pos(bit as nat);
        }
        let limit_bit: usize = (limit / divisor) % 2;
        let zero = arithmetic.zero();
        let factor = pair_weight(arithmetic, l, 0, r, 0);
        let next = advance(
            arithmetic,
            (zero, zero),
            borrows(0, limit_bit, 0),
            states.0,
            factor,
        );
        let factor = pair_weight(arithmetic, l, 1, r, 1);
        let next = advance(arithmetic, next, borrows(1, limit_bit, 0), states.0, factor);
        let factor = pair_weight(arithmetic, l, 0, r, 0);
        let next = advance(arithmetic, next, borrows(0, limit_bit, 1), states.1, factor);
        let factor = pair_weight(arithmetic, l, 1, r, 1);
        states = advance(arithmetic, next, borrows(1, limit_bit, 1), states.1, factor);
        proof {
            lemma_halve(limit as int, bit as nat);
            if bit + 1 < len {
                lemma_pow2_strictly_increases((bit + 1) as nat, len);
            }
            assert(equal_states(ops, left@, right@, limit as int, (bit + 1) as nat) == states);
        }
        divisor = divisor * 2;
        bit = bit + 1;
    }
    states.1
}

/// The four states of the shifted comparison automaton, by carry and borrow.
struct FourStates<S> {
    low: (S, S),
    high: (S, S),
}

impl<S> FourStates<S> {
    spec fn model(self) -> CarryStates<S> {
        CarryStates { low: self.low, high: self.high }
    }
}

fn advance_shifted<I: MleInterpreter>(
    arithmetic: &mut Arithmetic<'_, I>,
    next: FourStates<I::Scalar>,
    state: I::Scalar,
    carry_in: usize,
    borrow_in: usize,
    index_bit: usize,
    limit_bit: usize,
    shift_bit: usize,
    left: I::Scalar,
    right: I::Scalar,
) -> (states: FourStates<I::Scalar>)
    requires
        old(arithmetic).work@.below(WORK_LIMIT + 1000),
        carry_in <= 1,
        borrow_in <= 1,
        index_bit <= 1,
        limit_bit <= 1,
        shift_bit <= 1,
    ensures
        final(arithmetic).ops() == old(arithmetic).ops(),
        final(arithmetic).work@ == old(arithmetic).work@.plus(factor_work(index_bit as int)).plus(
            factor_work((index_bit + shift_bit + carry_in) % 2),
        ).plus(operations(1, 0, 2)),
        states.model() == shifted_term(
            old(arithmetic).ops(),
            next.model(),
            state,
            carry_in as int,
            borrow_in as int,
            index_bit as int,
            limit_bit as int,
            shift_bit as int,
            left,
            right,
        ),
{
    let total: usize = index_bit + shift_bit + carry_in;
    let factor = pair_weight(arithmetic, left, index_bit, right, total % 2);
    let borrow = borrows(index_bit, limit_bit, borrow_in);
    if total / 2 == 0 {
        let low = advance(arithmetic, next.low, borrow, state, factor);
        FourStates { low, high: next.high }
    } else {
        let high = advance(arithmetic, next.high, borrow, state, factor);
        FourStates { low: next.low, high }
    }
}

/// One step of the shifted comparison automaton.
fn step_shifted<I: MleInterpreter>(
    arithmetic: &mut Arithmetic<'_, I>,
    states: FourStates<I::Scalar>,
    limit_bit: usize,
    shift_bit: usize,
    l: I::Scalar,
    r: I::Scalar,
) -> (next: FourStates<I::Scalar>)
    requires
        old(arithmetic).work@.below(WORK_LIMIT + 900),
        limit_bit <= 1,
        shift_bit <= 1,
    ensures
        final(arithmetic).ops() == old(arithmetic).ops(),
        final(arithmetic).work@ == old(arithmetic).work@.plus(operations(8, 8, 16)),
        next.model() == shifted_step(
            old(arithmetic).ops(),
            states.model(),
            limit_bit as int,
            shift_bit as int,
            l,
            r,
        ),
{
    let zero = arithmetic.zero();
    let next = FourStates { low: (zero, zero), high: (zero, zero) };
    let next = advance_shifted(
        arithmetic, next, states.low.0, 0, 0, 0, limit_bit, shift_bit, l, r,
    );
    let next = advance_shifted(
        arithmetic, next, states.low.0, 0, 0, 1, limit_bit, shift_bit, l, r,
    );
    let next = advance_shifted(
        arithmetic, next, states.low.1, 0, 1, 0, limit_bit, shift_bit, l, r,
    );
    let next = advance_shifted(
        arithmetic, next, states.low.1, 0, 1, 1, limit_bit, shift_bit, l, r,
    );
    let next = advance_shifted(
        arithmetic, next, states.high.0, 1, 0, 0, limit_bit, shift_bit, l, r,
    );
    let next = advance_shifted(
        arithmetic, next, states.high.0, 1, 0, 1, limit_bit, shift_bit, l, r,
    );
    let next = advance_shifted(
        arithmetic, next, states.high.1, 1, 1, 0, limit_bit, shift_bit, l, r,
    );
    advance_shifted(arithmetic, next, states.high.1, 1, 1, 1, limit_bit, shift_bit, l, r)
}

/// The sum, over all indices below a limit, of the product of the left basis
/// polynomial of the index and the right one of the index plus a shift and a
/// carry.
pub(crate) fn bounded_shifted_indices<I: MleInterpreter>(
    arithmetic: &mut Arithmetic<'_, I>,
    left: &[I::Scalar],
    right: &[I::Scalar],
    limit: usize,
    shift: usize,
    carry: usize,
) -> (value: I::Scalar)
    requires
        left@.len() == right@.len(),
        left@.len() <= MAX_VARIABLES,
        carry <= 1,
        old(arithmetic).work@.below(WORK_LIMIT as int),
    ensures
        final(arithmetic).ops() == old(arithmetic).ops(),
        final(arithmetic).work@ == old(arithmetic).work@.plus(shifted_sum_work(left@.len())),
        value == shifted_sum(
            old(arithmetic).ops(),
            left@,
            right@,
            limit as int,
            shift as int,
            carry as int,
        ),
{
    let ghost ops = arithmetic.ops();
    let ghost start = arithmetic.work@;
    let ghost len = left@.len();
    let zero = arithmetic.zero();
    let one = arithmetic.one();
    let mut states = if carry == 0 {
        FourStates { low: (one, zero), high: (zero, zero) }
    } else {
        FourStates { low: (zero, zero), high: (one, zero) }
    };
    let mut divisor: usize = 1;
    let mut bit: usize = 0;
    proof {
        lemma2_to64();
    }
    while bit < left.len()
        invariant
            len == left@.len(),
            len == right@.len(),
            len <= MAX_VARIABLES,
            bit <= len,
            carry <= 1,
            arithmetic.ops() == ops,
            start == old(arithmetic).work@,
            start.below(WORK_LIMIT as int),
            divisor == pow2(bit as nat),
            divisor <= 0x4000_0000,
            pow2(30) == 0x4000_0000,
            states.model() == shifted_states(
                ops,
                left@,
                right@,
                limit as int,
                shift as int,
                carry as int,
                bit as nat,
            ),
            arithmetic.work@ == start.plus(
                operations(8 * bit as nat, 8 * bit as nat, 16 * bit as nat),
            ),
        decreases len - bit,
    {
        let l = left[left.len() - 1 - bit];
        let r = right[left.len() - 1 - bit];
        proof {
            lemma_pow2_pos(bit as nat);
        }
        let limit_bit: usize = (limit / divisor) % 2;
        let shift_bit: usize = (shift / divisor) % 2;
        states = step_shifted(arithmetic, states, limit_bit, shift_bit, l, r);
        proof {
            lemma_halve(limit as int, bit as nat);
            if bit + 1 < 30 {
                lemma_pow2_strictly_increases((bit + 1) as nat, 30);
            }
        }
        divisor = divisor * 2;
        bit = bit + 1;
    }
    states.low.1
}

} // verus!
