//! Laws of opening statements: the bytes under their digest bind the shape,
//! every point and every claimed value.

use vstd::arithmetic::power2::*;
use vstd::prelude::*;

use crate::binary64;
use crate::binary64::Binary64;
use crate::bytes;
use crate::field;
use crate::field::PcsField;
use crate::opening;
use crate::opening::{
    ProverMetrics, RoundLayout, SchemeModel, SchemeReadings, StreamsModel, VerifierMetrics,
};
use crate::pcs;
use crate::pcs::{ClaimsModel, OpeningClaims, PcsError};

verus! {

/// Whether every element is a canonical representative, and their count fits a
/// length field.
pub open spec fn canonical_elements(elements: Seq<nat>) -> bool {
    &&& elements.len() <= u64::MAX
    &&& forall|i: int| 0 <= i < elements.len() ==> #[trigger] elements[i] < field::modulus()
}

/// Whether an opening statement holds canonical representatives throughout.
pub open spec fn canonical_claims(claims: ClaimsModel) -> bool {
    &&& claims.points.len() <= u64::MAX
    &&& forall|i: int| 0 <= i < claims.points.len() ==> canonical_elements(#[trigger] claims.points[i])
    &&& canonical_elements(claims.evaluations)
}

proof fn lemma_element_width()
    ensures
        field::modulus() < bytes::byte_power(24),
{
    reveal_with_fuel(bytes::byte_power, 25);
}

/// Two fixed-width fields at the start of equal sequences are equal.
proof fn lemma_leading_field(
    first: nat,
    first_rest: Seq<u8>,
    second: nat,
    second_rest: Seq<u8>,
    width: nat,
)
    requires
        first < bytes::byte_power(width),
        second < bytes::byte_power(width),
        bytes::le_bytes(first, width) + first_rest == bytes::le_bytes(second, width) + second_rest,
    ensures
        first == second,
        first_rest == second_rest,
{
    opening::lemma_le_round_trip(first, width);
    opening::lemma_le_round_trip(second, width);
    lemma_same_start(
        bytes::le_bytes(first, width),
        first_rest,
        bytes::le_bytes(second, width),
        second_rest,
    );
}

proof fn lemma_same_start(
    first: Seq<u8>,
    first_rest: Seq<u8>,
    second: Seq<u8>,
    second_rest: Seq<u8>,
)
    requires
        first + first_rest == second + second_rest,
        first.len() == second.len(),
    ensures
        first == second,
        first_rest == second_rest,
{
    let length = first.len() as int;
    assert((first + first_rest).take(length) =~= first);
    assert((second + second_rest).take(length) =~= second);
    assert((first + first_rest).skip(length) =~= first_rest);
    assert((second + second_rest).skip(length) =~= second_rest);
}

proof fn lemma_regroup(first: Seq<u8>, second: Seq<u8>, third: Seq<u8>)
    ensures
        (first + second) + third == first + (second + third),
{
    assert((first + second) + third =~= first + (second + third));
}

proof fn lemma_elements(
    first: Seq<nat>,
    first_rest: Seq<u8>,
    second: Seq<nat>,
    second_rest: Seq<u8>,
    position: nat,
)
    requires
        canonical_elements(first),
        canonical_elements(second),
        first.len() == second.len(),
        position <= first.len(),
        pcs::elements_from(first, position) + first_rest == pcs::elements_from(second, position)
            + second_rest,
    ensures
        forall|i: int| position <= i < first.len() ==> #[trigger] first[i] == second[i],
        first_rest == second_rest,
    decreases first.len() - position,
{
    if position < first.len() {
        let at = position as int;
        let next = position + 1;
        lemma_element_width();
        lemma_regroup(
            bytes::le_bytes(first[at], 24),
            pcs::elements_from(first, next),
            first_rest,
        );
        lemma_regroup(
            bytes::le_bytes(second[at], 24),
            pcs::elements_from(second, next),
            second_rest,
        );
        lemma_leading_field(
            first[at],
            pcs::elements_from(first, next) + first_rest,
            second[at],
            pcs::elements_from(second, next) + second_rest,
            24,
        );
        lemma_elements(first, first_rest, second, second_rest, next);
    } else {
        assert(pcs::elements_from(first, position) + first_rest =~= first_rest);
        assert(pcs::elements_from(second, position) + second_rest =~= second_rest);
    }
}

proof fn lemma_list(
    first: Seq<nat>,
    first_rest: Seq<u8>,
    second: Seq<nat>,
    second_rest: Seq<u8>,
)
    requires
        canonical_elements(first),
        canonical_elements(second),
        pcs::list_bytes(first) + first_rest == pcs::list_bytes(second) + second_rest,
    ensures
        first == second,
        first_rest == second_rest,
{
    bytes::lemma_byte_powers();
    lemma_regroup(
        bytes::le_bytes(first.len(), 8),
        pcs::elements_from(first, 0),
        first_rest,
    );
    lemma_regroup(
        bytes::le_bytes(second.len(), 8),
        pcs::elements_from(second, 0),
        second_rest,
    );
    lemma_leading_field(
        first.len(),
        pcs::elements_from(first, 0) + first_rest,
        second.len(),
        pcs::elements_from(second, 0) + second_rest,
        8,
    );
    lemma_elements(first, first_rest, second, second_rest, 0);
    assert(first =~= second);
}

proof fn lemma_points(
    first: Seq<Seq<nat>>,
    first_rest: Seq<u8>,
    second: Seq<Seq<nat>>,
    second_rest: Seq<u8>,
    position: nat,
)
    requires
        first.len() == second.len(),
        forall|i: int| 0 <= i < first.len() ==> canonical_elements(#[trigger] first[i]),
        forall|i: int| 0 <= i < second.len() ==> canonical_elements(#[trigger] second[i]),
        position <= first.len(),
        pcs::points_from(first, position) + first_rest == pcs::points_from(second, position)
            + second_rest,
    ensures
        forall|i: int| position <= i < first.len() ==> #[trigger] first[i] == second[i],
        first_rest == second_rest,
    decreases first.len() - position,
{
    if position < first.len() {
        let at = position as int;
        let next = position + 1;
        lemma_regroup(
            pcs::list_bytes(first[at]),
            pcs::points_from(first, next),
            first_rest,
        );
        lemma_regroup(
            pcs::list_bytes(second[at]),
            pcs::points_from(second, next),
            second_rest,
        );
        lemma_list(
            first[at],
            pcs::points_from(first, next) + first_rest,
            second[at],
            pcs::points_from(second, next) + second_rest,
        );
        lemma_points(first, first_rest, second, second_rest, next);
    } else {
        assert(pcs::points_from(first, position) + first_rest =~= first_rest);
        assert(pcs::points_from(second, position) + second_rest =~= second_rest);
    }
}

/// The digested bytes bind an opening statement: the same bytes come from the
/// same shape, the same points and the same claimed values only, so that a
/// changed claim changes what is digested.
pub proof fn opening_bytes_bind_the_statement(
    first_shape: (usize, usize),
    first: ClaimsModel,
    second_shape: (usize, usize),
    second: ClaimsModel,
)
    requires
        canonical_claims(first),
        canonical_claims(second),
        pcs::opening_bytes(first_shape.0, first_shape.1, first) == pcs::opening_bytes(
            second_shape.0,
            second_shape.1,
            second,
        ),
    ensures
        first_shape == second_shape,
        first == second,
{
    let tag = vstd::utf8::encode_utf8(pcs::OPENING_DIGEST_TAG@);
    lemma_opening_parts(first_shape, first);
    lemma_opening_parts(second_shape, second);
    bytes::lemma_byte_powers();
    let first_tail = pcs::points_from(first.points, 0) + pcs::list_bytes(first.evaluations);
    let second_tail = pcs::points_from(second.points, 0) + pcs::list_bytes(second.evaluations);
    let first_counted = bytes::le_bytes(first.points.len(), 8) + first_tail;
    let second_counted = bytes::le_bytes(second.points.len(), 8) + second_tail;
    let first_batch = bytes::le_bytes(first_shape.1 as nat, 8) + first_counted;
    let second_batch = bytes::le_bytes(second_shape.1 as nat, 8) + second_counted;
    lemma_same_start(
        tag,
        bytes::le_bytes(first_shape.0 as nat, 8) + first_batch,
        tag,
        bytes::le_bytes(second_shape.0 as nat, 8) + second_batch,
    );
    lemma_leading_field(
        first_shape.0 as nat,
        first_batch,
        second_shape.0 as nat,
        second_batch,
        8,
    );
    lemma_leading_field(
        first_shape.1 as nat,
        first_counted,
        second_shape.1 as nat,
        second_counted,
        8,
    );
    lemma_leading_field(
        first.points.len(),
        first_tail,
        second.points.len(),
        second_tail,
        8,
    );
    lemma_points(
        first.points,
        pcs::list_bytes(first.evaluations),
        second.points,
        pcs::list_bytes(second.evaluations),
        0,
    );
    assert(first.points =~= second.points);
    assert(pcs::list_bytes(first.evaluations) + Seq::<u8>::empty() =~= pcs::list_bytes(
        first.evaluations,
    ));
    assert(pcs::list_bytes(second.evaluations) + Seq::<u8>::empty() =~= pcs::list_bytes(
        second.evaluations,
    ));
    lemma_list(first.evaluations, Seq::empty(), second.evaluations, Seq::empty());
}

proof fn lemma_opening_parts(shape: (usize, usize), claims: ClaimsModel)
    ensures
        pcs::opening_bytes(shape.0, shape.1, claims) == vstd::utf8::encode_utf8(
            pcs::OPENING_DIGEST_TAG@,
        ) + (bytes::le_bytes(shape.0 as nat, 8) + (bytes::le_bytes(shape.1 as nat, 8) + (
        bytes::le_bytes(claims.points.len(), 8) + (pcs::points_from(claims.points, 0)
            + pcs::list_bytes(claims.evaluations))))),
{
    lemma_six_parts(
        vstd::utf8::encode_utf8(pcs::OPENING_DIGEST_TAG@),
        bytes::le_bytes(shape.0 as nat, 8),
        bytes::le_bytes(shape.1 as nat, 8),
        bytes::le_bytes(claims.points.len(), 8),
        pcs::points_from(claims.points, 0),
        pcs::list_bytes(claims.evaluations),
    );
}

proof fn lemma_six_parts(
    first: Seq<u8>,
    second: Seq<u8>,
    third: Seq<u8>,
    fourth: Seq<u8>,
    fifth: Seq<u8>,
    sixth: Seq<u8>,
)
    ensures
        first + second + third + fourth + fifth + sixth == first + (second + (third + (fourth + (
        fifth + sixth)))),
{
    assert(first + second + third + fourth + fifth + sixth =~= first + (second + (third + (fourth
        + (fifth + sixth)))));
}

/// Which table shapes are admitted: a power of two from sixteen on, and at least
/// one vector.
pub proof fn shape_validity(vector_len: usize, batch_size: usize)
    ensures
        pcs::shape_error(vector_len, batch_size) is None <==> {
            &&& exists|exponent: nat| vector_len == #[trigger] pow2(exponent)
            &&& 16 <= vector_len
            &&& 0 < batch_size
        },
{
    if pcs::is_power(vector_len as nat) {
        let exponent = pcs::exponent_of(vector_len as nat);
        assert(vector_len == pow2(exponent));
        lemma2_to64();
        if exponent < 4 {
            lemma_pow2_strictly_increases(exponent, 4);
        }
        if 4 < exponent {
            lemma_pow2_strictly_increases(4, exponent);
        }
    }
}

/// A security floor is the whole number of bits below a computed bound: at least
/// 128, and no more than the bound.
pub proof fn security_floors_round_down(computed: Binary64)
    ensures
        match pcs::security_outcome(computed) {
            Ok(bits) => {
                &&& binary64::finite(computed@)
                &&& computed@ < 0x8000_0000_0000_0000
                &&& 128 <= bits
                &&& bits * pow2(1074) <= binary64::unit_magnitude(computed@)
                &&& binary64::unit_magnitude(computed@) < (bits + 1) * pow2(1074)
            },
            Err(_) => !binary64::finite(computed@) || computed@ >= 0x8000_0000_0000_0000
                || binary64::unit_magnitude(computed@) < 128 * pow2(1074)
                || binary64::unit_magnitude(computed@) >= 0x1_0000_0000 * pow2(1074),
        },
{
    let magnitude = binary64::unit_magnitude(computed@);
    let unit = pow2(1074);
    lemma_pow2_pos(1074);
    let whole = magnitude / unit;
    assert(whole * unit <= magnitude && magnitude < whole * unit + unit) by (nonlinear_arith)
        requires
            whole == magnitude / unit,
            0 < unit,
    ;
    assert((whole + 1) * unit == whole * unit + unit) by (nonlinear_arith);
    if whole < 128 {
        assert(whole * unit + unit <= 128 * unit) by (nonlinear_arith)
            requires
                whole < 128,
                0 < unit,
        ;
    }
    if whole > u32::MAX {
        assert(0x1_0000_0000 * unit <= whole * unit) by (nonlinear_arith)
            requires
                whole >= 0x1_0000_0000,
                0 < unit,
        ;
    }
}

proof fn lemma_points_validity(points: Seq<Seq<nat>>, variables: nat, count: nat)
    requires
        count <= points.len(),
    ensures
        pcs::points_error(points, variables, count) is None <==> forall|i: int|
            0 <= i < count ==> (#[trigger] points[i]).len() == variables,
    decreases count,
{
    if count > 0 {
        lemma_points_validity(points, variables, (count - 1) as nat);
    }
}

/// Which opening statements are admitted: at least one point, every point with
/// one coordinate for each variable, one value for each point and vector, and a
/// security floor.
pub proof fn claims_validity(
    variables: nat,
    batch_size: usize,
    claims: ClaimsModel,
    computed: Binary64,
)
    ensures
        pcs::claims_error(variables, batch_size, claims, computed) is None <==> {
            &&& 0 < claims.points.len()
            &&& forall|i: int|
                0 <= i < claims.points.len() ==> (#[trigger] claims.points[i]).len() == variables
            &&& claims.evaluations.len() == claims.points.len() * batch_size
            &&& claims.points.len() * batch_size <= usize::MAX
            &&& pcs::security_outcome(computed) is Ok
        },
{
    lemma_points_validity(claims.points, variables, claims.points.len());
}

/// Which batches are admitted: every vector has the table's length.
pub proof fn batch_validity(vectors: Seq<Seq<nat>>, vector_len: usize, count: nat)
    requires
        count <= vectors.len(),
    ensures
        pcs::lengths_error(vectors, vector_len, count) is None <==> forall|i: int|
            0 <= i < count ==> (#[trigger] vectors[i]).len() == vector_len,
    decreases count,
{
    if count > 0 {
        batch_validity(vectors, vector_len, (count - 1) as nat);
    }
}

/// Claimed values are laid out point by point: the value of a vector at a point
/// stands behind the values of all vectors at all earlier points.
pub proof fn claimed_values_are_row_major<F: Fn(&[PcsField], &[PcsField]) -> PcsField>(
    evaluate: F,
    vectors: Seq<Vec<PcsField>>,
    points: Seq<Vec<PcsField>>,
    evaluations: Seq<PcsField>,
    point: int,
    vector: int,
)
    requires
        pcs::evaluates(
            evaluate,
            vectors,
            points,
            evaluations,
            (points.len() * vectors.len()) as int,
        ),
        0 <= point < points.len(),
        0 <= vector < vectors.len(),
    ensures
        evaluations.len() == points.len() * vectors.len(),
        0 <= point * vectors.len() + vector < evaluations.len(),
        pcs::evaluated(
            evaluate,
            points[point],
            vectors[vector],
            evaluations[point * vectors.len() + vector],
        ),
{
    let width = vectors.len() as int;
    let position = point * width + vector;
    assert(0 <= position < points.len() * width && position / width == point && position % width
        == vector) by (nonlinear_arith)
        requires
            position == point * width + vector,
            0 <= point < points.len(),
            0 <= vector < width,
    ;
    assert(pcs::evaluated(
        evaluate,
        points[position / width],
        vectors[position % width],
        evaluations[position],
    ));
}

/// Which openings are proved: those of an admitted batch whose claims are
/// admitted, where everything the prover retains fits the machine.
pub proof fn proving_validity(
    vector_len: usize,
    batch_size: usize,
    vectors: Seq<Seq<nat>>,
    hooked: Result<OpeningClaims, String>,
    proof_of: SchemeModel,
)
    ensures
        opening::proving_error(vector_len, batch_size, vectors, hooked, proof_of) is None <==> {
            &&& vectors.len() == batch_size
            &&& forall|i: int| 0 <= i < vectors.len() ==> (#[trigger] vectors[i]).len() == vector_len
            &&& hooked matches Ok(claims)
            &&& pcs::claims_error(
                pcs::exponent_of(vector_len as nat),
                batch_size,
                claims@,
                proof_of.computed_security,
            ) is None
            &&& opening::high_watermark(
                vector_len,
                batch_size,
                proof_of.layout,
                proof_of.rounds,
                proof_of.streams,
            ) <= usize::MAX
        },
{
    batch_validity(vectors, vector_len, vectors.len());
}

/// Which opening proofs a verifier accepts: those whose commitment could be
/// read, whose claims are admitted and are the ones that the transcript bound,
/// and which the scheme accepted.
pub proof fn verification_validity(
    vector_len: usize,
    batch_size: usize,
    certificate: StreamsModel,
    readings: SchemeReadings,
)
    ensures
        opening::verification_error(vector_len, batch_size, certificate, readings) is None <==> {
            &&& readings.commitment_received
            &&& readings.accepted
            &&& readings.claims matches Ok(claims)
            &&& pcs::claims_error(
                pcs::exponent_of(vector_len as nat),
                batch_size,
                claims@,
                readings.computed_security,
            ) is None
            &&& readings.received_digest matches Some(received)
            &&& received@ == pcs::opening_digest(vector_len, batch_size, claims@)
            &&& 26 + certificate.narg_string.len() + certificate.hints.len() <= usize::MAX
        },
{
}

/// What a prover's metrics add up to: the retained source vectors, the initial
/// commitment, two folding buffers, the largest later commitment and the
/// certificate, each in bytes.
pub proof fn prover_metrics_add_up(
    metrics: ProverMetrics,
    vector_len: usize,
    batch_size: usize,
    proof_of: SchemeModel,
)
    requires
        opening::accounts_for(metrics, vector_len, batch_size, proof_of),
    ensures
        metrics.source_vector_bytes == batch_size * vector_len * 24,
        metrics.initial_codeword_bytes == proof_of.layout.codeword_elements * 24,
        metrics.initial_merkle_tree_bytes == proof_of.layout.merkle_nodes * 32,
        metrics.initial_ood_bytes == (proof_of.layout.out_of_domain_points
            + proof_of.layout.out_of_domain_elements) * 24,
        metrics.two_full_folding_buffers == 2 * vector_len * 24,
        metrics.certificate_bytes == 26 + proof_of.streams.narg_string.len()
            + proof_of.streams.hints.len(),
        metrics.accounted_high_watermark_bytes == metrics.source_vector_bytes
            + metrics.initial_codeword_bytes + metrics.initial_merkle_tree_bytes
            + metrics.initial_ood_bytes + metrics.two_full_folding_buffers
            + metrics.largest_round_commitment_bytes + metrics.certificate_bytes,
        proof_of.hashes_before <= proof_of.hashes_after ==> metrics.diagnostic_hash_invocations
            == proof_of.hashes_after - proof_of.hashes_before,
        pcs::security_outcome(proof_of.computed_security) == Ok::<u32, PcsError>(
            metrics.security_bits_floor,
        ),
{
}

/// The largest later commitment is that of one of the rounds, and no round has a
/// larger one; without rounds it is empty.
pub proof fn largest_rounds_are_attained(rounds: Seq<RoundLayout>, count: nat, index: int) -> (place:
    int)
    requires
        count <= rounds.len(),
        0 <= index < count,
    ensures
        0 <= place < count,
        opening::largest_round(rounds, 0) == 0,
        opening::round_bytes(rounds[index]) <= opening::largest_round(rounds, count),
        opening::round_bytes(rounds[place]) == opening::largest_round(rounds, count),
    decreases count,
{
    let last = count - 1;
    let round = rounds[last];
    let products = round.out_of_domain_samples * round.vectors;
    assert(products >= 0) by (nonlinear_arith)
        requires
            products == round.out_of_domain_samples * round.vectors,
    ;
    if last == 0 {
        last
    } else {
        let inner = if index < last {
            index
        } else {
            0
        };
        let place = largest_rounds_are_attained(rounds, last as nat, inner);
        if opening::round_bytes(round) > opening::largest_round(rounds, last as nat) {
            last
        } else {
            place
        }
    }
}

/// What a verifier's metrics say.
pub proof fn verifier_metrics_count_the_statement(
    metrics: VerifierMetrics,
    certificate: StreamsModel,
    claims: ClaimsModel,
    computed: Binary64,
    before: usize,
    after: usize,
)
    requires
        opening::measures(metrics, certificate, claims, computed, before, after),
    ensures
        metrics.certificate_bytes == 26 + certificate.narg_string.len() + certificate.hints.len(),
        metrics.opening_points == claims.points.len(),
        metrics.claimed_evaluations == claims.evaluations.len(),
        before <= after ==> metrics.diagnostic_hash_invocations == after - before,
        pcs::security_outcome(computed) == Ok::<u32, PcsError>(metrics.security_bits_floor),
{
}

/// Hashes are counted from the start of an operation; a counter that went back
/// counts none.
pub proof fn hashes_are_counted_from_the_start(before: usize, after: usize)
    ensures
        before <= after ==> opening::elapsed(before, after) == after - before,
        after < before ==> opening::elapsed(before, after) == 0,
{
}

/// A later commitment holds its codeword, its tree, and for each out-of-domain
/// sample the point and one value of every vector.
pub proof fn round_commitments_add_up(round: RoundLayout)
    ensures
        opening::round_bytes(round) == 24 * round.codeword_elements + 32 * round.merkle_nodes + 24
            * round.out_of_domain_samples + 24 * (round.out_of_domain_samples * round.vectors),
{
    let samples = round.out_of_domain_samples as int;
    let values = round.out_of_domain_samples * round.vectors;
    assert((samples + values) * 24 == 24 * samples + 24 * values) by (nonlinear_arith);
}

/// A protocol has an admissible shape, a proof of work within its limit, and
/// enough security; the first of these that fails is what it is refused for.
pub proof fn protocol_validity(
    vector_len: usize,
    batch_size: usize,
    within_pow_limit: bool,
    computed: Binary64,
)
    ensures
        ({
            let error = pcs::protocol_error(vector_len, batch_size, within_pow_limit, computed);
            let shape = pcs::shape_error(vector_len, batch_size);
            &&& error is None <==> shape is None && within_pow_limit && pcs::security_outcome(
                computed,
            ) is Ok
            &&& shape is Some ==> error == shape
            &&& shape is None && !within_pow_limit ==> error is Some && error->0
                is ExcessiveProofOfWork
            &&& shape is None && within_pow_limit && pcs::security_outcome(computed) is Err
                ==> error == Some(pcs::security_outcome(computed)->Err_0)
        }),
{
}

/// A vector has one variable for each doubling of its length.
pub proof fn variables_double_the_length(vector_len: nat)
    requires
        exists|exponent: nat| vector_len == #[trigger] pow2(exponent),
    ensures
        pow2(pcs::exponent_of(vector_len)) == vector_len,
{
}

/// A batch is refused for its size, or for the first vector of another length.
pub proof fn refused_batches_are_named(
    vectors: Seq<Seq<nat>>,
    vector_len: usize,
    index: int,
    count: nat,
)
    requires
        0 <= index < count <= vectors.len(),
        vectors[index].len() != vector_len,
        forall|before: int| 0 <= before < index ==> (#[trigger] vectors[before]).len() == vector_len,
    ensures
        pcs::lengths_error(vectors, vector_len, count) == Some(
            PcsError::WrongVectorLength {
                index: index as usize,
                expected: vector_len,
                actual: vectors[index].len() as usize,
            },
        ),
    decreases count,
{
    if index == count - 1 {
        batch_validity(vectors, vector_len, index as nat);
    } else {
        refused_batches_are_named(vectors, vector_len, index, (count - 1) as nat);
    }
}

} // verus!
