//! Laws of certificates: their canonical bytes bind every field, and what was
//! signed verifies.

use vstd::prelude::*;

use crate::binary64;
use crate::binary64::Binary64;
use crate::bytes;
use crate::canonical;
use crate::canonical::CanonicalEncode;
use crate::certificate;
use crate::certificate::{
    CertificateModel, CertifiedScore, DefectMetrics, FastConsistencyMetrics, ResidualMetrics,
    SignedCertificateModel,
};
use crate::protocol;
use crate::signing;

verus! {

/// A certificate whose signature its key accepts, as signing ensures, verifies
/// for its own issuer and key identifier.
pub proof fn signed_certificates_verify(certificate: SignedCertificateModel, seed: Seq<u8>)
    requires
        certificate::certificate_error(certificate.payload) is None,
        signing::ed25519_accepts(
            signing::ed25519_public_key(seed),
            certificate::certificate_message(certificate.payload),
            certificate.signature,
        ),
    ensures
        certificate::certificate_refusal(
            certificate,
            signing::ed25519_public_key(seed),
            certificate.payload.issuer,
            certificate.payload.key_id,
        ) is None,
{
}

proof fn lemma_integer_field(first: u64, second: u64)
    requires
        bytes::be_bytes(first as nat, 8) == bytes::be_bytes(second as nat, 8),
    ensures
        first == second,
{
    bytes::lemma_byte_powers();
    bytes::lemma_be_round_trip(first as nat, 8);
    bytes::lemma_be_round_trip(second as nat, 8);
}

proof fn lemma_metric(first: Binary64, second: Binary64)
    requires
        certificate::metric_bytes(first) == certificate::metric_bytes(second),
    ensures
        first == second,
{
    lemma_integer_field(first@, second@);
    binary64::lemma_determined_by_bits(first, second);
}

proof fn lemma_four_fields(
    first: (Seq<u8>, Seq<u8>, Seq<u8>, Seq<u8>),
    second: (Seq<u8>, Seq<u8>, Seq<u8>, Seq<u8>),
)
    requires
        first.0 + first.1 + first.2 + first.3 == second.0 + second.1 + second.2 + second.3,
        first.0.len() == second.0.len(),
        first.1.len() == second.1.len(),
        first.2.len() == second.2.len(),
    ensures
        first == second,
{
    let left = first.0 + first.1 + first.2 + first.3;
    let right = second.0 + second.1 + second.2 + second.3;
    let (a, b, c) = (first.0.len() as int, first.1.len() as int, first.2.len() as int);
    assert(left.subrange(0, a) =~= first.0);
    assert(right.subrange(0, a) =~= second.0);
    assert(left.subrange(a, a + b) =~= first.1);
    assert(right.subrange(a, a + b) =~= second.1);
    assert(left.subrange(a + b, a + b + c) =~= first.2);
    assert(right.subrange(a + b, a + b + c) =~= second.2);
    assert(left.skip(a + b + c) =~= first.3);
    assert(right.skip(a + b + c) =~= second.3);
}

proof fn lemma_residual(first: ResidualMetrics, second: ResidualMetrics)
    ensures
        first.encoding().len() == 32,
        first.encoding() == second.encoding() ==> first == second,
{
    bytes::lemma_be_bytes_len(first.squared_l2@ as nat, 8);
    bytes::lemma_be_bytes_len(first.l2@ as nat, 8);
    bytes::lemma_be_bytes_len(first.rms@ as nat, 8);
    bytes::lemma_be_bytes_len(first.max_abs@ as nat, 8);
    bytes::lemma_be_bytes_len(second.squared_l2@ as nat, 8);
    bytes::lemma_be_bytes_len(second.l2@ as nat, 8);
    bytes::lemma_be_bytes_len(second.rms@ as nat, 8);
    if first.encoding() == second.encoding() {
        lemma_four_fields(
            (
                certificate::metric_bytes(first.squared_l2),
                certificate::metric_bytes(first.l2),
                certificate::metric_bytes(first.rms),
                certificate::metric_bytes(first.max_abs),
            ),
            (
                certificate::metric_bytes(second.squared_l2),
                certificate::metric_bytes(second.l2),
                certificate::metric_bytes(second.rms),
                certificate::metric_bytes(second.max_abs),
            ),
        );
        lemma_metric(first.squared_l2, second.squared_l2);
        lemma_metric(first.l2, second.l2);
        lemma_metric(first.rms, second.rms);
        lemma_metric(first.max_abs, second.max_abs);
    }
}

proof fn lemma_defects(first: DefectMetrics, second: DefectMetrics)
    ensures
        first.encoding().len() == 32,
        first.encoding() == second.encoding() ==> first == second,
{
    bytes::lemma_be_bytes_len(first.maximum_absolute_defect@ as nat, 8);
    bytes::lemma_be_bytes_len(first.maximum_normalized_defect@ as nat, 8);
    bytes::lemma_be_bytes_len(first.rms_normalized_defect@ as nat, 8);
    bytes::lemma_be_bytes_len(first.threshold_exceedances as nat, 8);
    bytes::lemma_be_bytes_len(second.maximum_absolute_defect@ as nat, 8);
    bytes::lemma_be_bytes_len(second.maximum_normalized_defect@ as nat, 8);
    bytes::lemma_be_bytes_len(second.rms_normalized_defect@ as nat, 8);
    if first.encoding() == second.encoding() {
        lemma_four_fields(
            (
                certificate::metric_bytes(first.maximum_absolute_defect),
                certificate::metric_bytes(first.maximum_normalized_defect),
                certificate::metric_bytes(first.rms_normalized_defect),
                bytes::be_bytes(first.threshold_exceedances as nat, 8),
            ),
            (
                certificate::metric_bytes(second.maximum_absolute_defect),
                certificate::metric_bytes(second.maximum_normalized_defect),
                certificate::metric_bytes(second.rms_normalized_defect),
                bytes::be_bytes(second.threshold_exceedances as nat, 8),
            ),
        );
        lemma_metric(first.maximum_absolute_defect, second.maximum_absolute_defect);
        lemma_metric(first.maximum_normalized_defect, second.maximum_normalized_defect);
        lemma_metric(first.rms_normalized_defect, second.rms_normalized_defect);
        lemma_integer_field(first.threshold_exceedances, second.threshold_exceedances);
    }
}

proof fn lemma_consistency(first: FastConsistencyMetrics, second: FastConsistencyMetrics)
    ensures
        first.encoding().len() == 132,
        first.encoding() == second.encoding() ==> first == second,
{
    lemma_defects(first.norm_sumcheck, second.norm_sumcheck);
    lemma_defects(first.matvec_sumcheck, second.matvec_sumcheck);
    lemma_defects(first.linear_opening, second.linear_opening);
    lemma_defects(first.unit_circle_folds, second.unit_circle_folds);
    lemma_defects(second.norm_sumcheck, first.norm_sumcheck);
    lemma_defects(second.matvec_sumcheck, first.matvec_sumcheck);
    lemma_defects(second.linear_opening, first.linear_opening);
    lemma_defects(second.unit_circle_folds, first.unit_circle_folds);
    let first_count = bytes::be_bytes(first.recursive_query_trajectories as nat, 4);
    let second_count = bytes::be_bytes(second.recursive_query_trajectories as nat, 4);
    bytes::lemma_be_bytes_len(first.recursive_query_trajectories as nat, 4);
    bytes::lemma_be_bytes_len(second.recursive_query_trajectories as nat, 4);
    if first.encoding() == second.encoding() {
        let left = first.encoding();
        let right = second.encoding();
        assert(left =~= first.norm_sumcheck.encoding() + first.matvec_sumcheck.encoding()
            + first.linear_opening.encoding() + (first.unit_circle_folds.encoding()
            + first_count));
        assert(right =~= second.norm_sumcheck.encoding() + second.matvec_sumcheck.encoding()
            + second.linear_opening.encoding() + (second.unit_circle_folds.encoding()
            + second_count));
        lemma_four_fields(
            (
                first.norm_sumcheck.encoding(),
                first.matvec_sumcheck.encoding(),
                first.linear_opening.encoding(),
                first.unit_circle_folds.encoding() + first_count,
            ),
            (
                second.norm_sumcheck.encoding(),
                second.matvec_sumcheck.encoding(),
                second.linear_opening.encoding(),
                second.unit_circle_folds.encoding() + second_count,
            ),
        );
        lemma_two_fields(
            first.unit_circle_folds.encoding(),
            first_count,
            second.unit_circle_folds.encoding(),
            second_count,
        );
        bytes::lemma_byte_powers();
        bytes::lemma_be_round_trip(first.recursive_query_trajectories as nat, 4);
        bytes::lemma_be_round_trip(second.recursive_query_trajectories as nat, 4);
    }
}

proof fn lemma_two_fields(
    first: Seq<u8>,
    first_rest: Seq<u8>,
    second: Seq<u8>,
    second_rest: Seq<u8>,
)
    requires
        first + first_rest == second + second_rest,
        first.len() == second.len(),
    ensures
        first == second,
        first_rest == second_rest,
{
    let length = first.len() as int;
    assert((first + first_rest).take(length) =~= first);
    assert((second + second_rest).take(length) =~= second);
    assert((first + first_rest).skip(length) =~= first_rest);
    assert((second + second_rest).skip(length) =~= second_rest);
}

/// Whether two scores are of one kind.
spec fn same_kind(first: CertifiedScore, second: CertifiedScore) -> bool {
    match (first, second) {
        (
            CertifiedScore::DirectBinary64ResidualV1 { .. },
            CertifiedScore::DirectBinary64ResidualV1 { .. },
        ) => true,
        (
            CertifiedScore::ExactDyadicSquaredL2V1 { .. },
            CertifiedScore::ExactDyadicSquaredL2V1 { .. },
        ) => true,
        (
            CertifiedScore::FastBinary64SquaredL2V1 { .. },
            CertifiedScore::FastBinary64SquaredL2V1 { .. },
        ) => true,
        _ => false,
    }
}

proof fn lemma_score(first: CertifiedScore, second: CertifiedScore)
    requires
        same_kind(first, second),
    ensures
        first.encoding().len() == second.encoding().len(),
        first.encoding() == second.encoding() ==> first == second,
{
    bytes::lemma_be_bytes_len(1, 2);
    bytes::lemma_be_bytes_len(2, 2);
    bytes::lemma_be_bytes_len(3, 2);
    match (first, second) {
        (
            CertifiedScore::DirectBinary64ResidualV1 { residual },
            CertifiedScore::DirectBinary64ResidualV1 { residual: other },
        ) => {
            lemma_residual(residual, other);
            lemma_residual(other, residual);
            if first.encoding() == second.encoding() {
                lemma_two_fields(
                    bytes::be_bytes(1, 2),
                    residual.encoding(),
                    bytes::be_bytes(1, 2),
                    other.encoding(),
                );
            }
        },
        (
            CertifiedScore::ExactDyadicSquaredL2V1 { numerator, denominator_power },
            CertifiedScore::ExactDyadicSquaredL2V1 {
                numerator: other,
                denominator_power: other_power,
            },
        ) => {
            bytes::lemma_be_bytes_len(denominator_power as nat, 4);
            bytes::lemma_be_bytes_len(other_power as nat, 4);
            certificate::lemma_determined_by_bytes(numerator, other);
            certificate::lemma_determined_by_bytes(other, numerator);
            if first.encoding() == second.encoding() {
                let tag = bytes::be_bytes(2, 2);
                let power = bytes::be_bytes(denominator_power as nat, 4);
                let second_power = bytes::be_bytes(other_power as nat, 4);
                lemma_two_fields(
                    tag + numerator.encoding(),
                    power,
                    tag + other.encoding(),
                    second_power,
                );
                lemma_two_fields(tag, numerator.encoding(), tag, other.encoding());
                bytes::lemma_byte_powers();
                bytes::lemma_be_round_trip(denominator_power as nat, 4);
                bytes::lemma_be_round_trip(other_power as nat, 4);
            }
        },
        (
            CertifiedScore::FastBinary64SquaredL2V1 { squared_l2, consistency },
            CertifiedScore::FastBinary64SquaredL2V1 {
                squared_l2: other_norm,
                consistency: other,
            },
        ) => {
            bytes::lemma_be_bytes_len(squared_l2@ as nat, 8);
            bytes::lemma_be_bytes_len(other_norm@ as nat, 8);
            lemma_consistency(consistency, other);
            lemma_consistency(other, consistency);
            if first.encoding() == second.encoding() {
                let tag = bytes::be_bytes(3, 2);
                lemma_two_fields(
                    tag + certificate::metric_bytes(squared_l2),
                    consistency.encoding(),
                    tag + certificate::metric_bytes(other_norm),
                    other.encoding(),
                );
                lemma_two_fields(
                    tag,
                    certificate::metric_bytes(squared_l2),
                    tag,
                    certificate::metric_bytes(other_norm),
                );
                lemma_metric(squared_l2, other_norm);
            }
        },
        _ => {},
    }
}

/// Whether every digest of a certificate has its size.
pub open spec fn sized_certificate(certificate: CertificateModel) -> bool {
    &&& certificate.challenge_digest.len() == 32
    &&& certificate.problem_digest.len() == 32
    &&& certificate.manifest_digest.len() == 32
    &&& certificate.proof_digest.len() == 32
}

/// What follows the identifiers in the canonical bytes of a certificate.
spec fn tail_fields(certificate: CertificateModel) -> Seq<u8> {
    bytes::be_bytes(bytes::twos_complement_64(certificate.issued_at), 8)
        + certificate.challenge_digest + certificate.problem_digest + certificate.manifest_digest
        + certificate.proof_digest + bytes::be_bytes(certificate.protocol.id() as nat, 2)
        + certificate.score.encoding() + canonical::framed(
        vstd::utf8::encode_utf8(certificate.validator_build),
    )
}

proof fn lemma_encoding_parts(certificate: CertificateModel)
    ensures
        certificate::certificate_encoding(certificate) == bytes::be_bytes(3, 2) + (canonical::framed(
            vstd::utf8::encode_utf8(certificate.issuer),
        ) + (canonical::framed(vstd::utf8::encode_utf8(certificate.key_id)) + tail_fields(
            certificate,
        ))),
{
    let issuer = canonical::framed(vstd::utf8::encode_utf8(certificate.issuer));
    let key_id = canonical::framed(vstd::utf8::encode_utf8(certificate.key_id));
    let build = canonical::framed(vstd::utf8::encode_utf8(certificate.validator_build));
    let issued_at = bytes::be_bytes(bytes::twos_complement_64(certificate.issued_at), 8);
    let id = bytes::be_bytes(certificate.protocol.id() as nat, 2);
    lemma_reassociate(
        bytes::be_bytes(3, 2),
        issuer,
        key_id,
        issued_at,
        certificate.challenge_digest,
        certificate.problem_digest,
        certificate.manifest_digest,
        certificate.proof_digest,
        id,
        certificate.score.encoding(),
        build,
    );
}

proof fn lemma_reassociate(
    tag: Seq<u8>,
    issuer: Seq<u8>,
    key_id: Seq<u8>,
    issued_at: Seq<u8>,
    challenge: Seq<u8>,
    problem: Seq<u8>,
    manifest: Seq<u8>,
    proof_digest: Seq<u8>,
    id: Seq<u8>,
    score: Seq<u8>,
    build: Seq<u8>,
)
    ensures
        tag + issuer + key_id + issued_at + challenge + problem + manifest + proof_digest + id
            + score + build == tag + (issuer + (key_id + (issued_at + challenge + problem + manifest
            + proof_digest + id + score + build))),
{
    assert(tag + issuer + key_id + issued_at + challenge + problem + manifest + proof_digest + id
        + score + build =~= tag + (issuer + (key_id + (issued_at + challenge + problem + manifest
        + proof_digest + id + score + build))));
}

proof fn lemma_split_last(first: Seq<u8>, second: Seq<u8>, third: Seq<u8>)
    ensures
        first + second + third == first + (second + third),
{
    assert(first + second + third =~= first + (second + third));
}

proof fn lemma_tail_fields(first: CertificateModel, second: CertificateModel)
    requires
        sized_certificate(first),
        sized_certificate(second),
        certificate::certificate_error(first) is None,
        certificate::certificate_error(second) is None,
        tail_fields(first) == tail_fields(second),
    ensures
        first.issued_at == second.issued_at,
        first.challenge_digest == second.challenge_digest,
        first.problem_digest == second.problem_digest,
        first.manifest_digest == second.manifest_digest,
        first.proof_digest == second.proof_digest,
        first.protocol == second.protocol,
        first.score == second.score,
        vstd::utf8::encode_utf8(first.validator_build) == vstd::utf8::encode_utf8(
            second.validator_build,
        ),
{
    let times = (
        bytes::twos_complement_64(first.issued_at),
        bytes::twos_complement_64(second.issued_at),
    );
    bytes::lemma_byte_powers();
    bytes::lemma_be_bytes_len(times.0, 8);
    bytes::lemma_be_bytes_len(times.1, 8);
    bytes::lemma_be_round_trip(times.0, 8);
    bytes::lemma_be_round_trip(times.1, 8);
    bytes::lemma_be_bytes_len(first.protocol.id() as nat, 2);
    bytes::lemma_be_bytes_len(second.protocol.id() as nat, 2);
    bytes::lemma_be_round_trip(first.protocol.id() as nat, 2);
    bytes::lemma_be_round_trip(second.protocol.id() as nat, 2);
    let a = bytes::be_bytes(times.0, 8) + first.challenge_digest + first.problem_digest
        + first.manifest_digest;
    let b = bytes::be_bytes(times.1, 8) + second.challenge_digest + second.problem_digest
        + second.manifest_digest;
    let a_id = bytes::be_bytes(first.protocol.id() as nat, 2);
    let b_id = bytes::be_bytes(second.protocol.id() as nat, 2);
    let a_build = vstd::utf8::encode_utf8(first.validator_build);
    let b_build = vstd::utf8::encode_utf8(second.validator_build);
    let a_rest = first.score.encoding() + canonical::framed(a_build);
    let b_rest = second.score.encoding() + canonical::framed(b_build);
    lemma_split_last(
        a + first.proof_digest + a_id,
        first.score.encoding(),
        canonical::framed(a_build),
    );
    lemma_split_last(
        b + second.proof_digest + b_id,
        second.score.encoding(),
        canonical::framed(b_build),
    );
    lemma_four_fields((a, first.proof_digest, a_id, a_rest), (b, second.proof_digest, b_id, b_rest));
    lemma_four_fields(
        (
            bytes::be_bytes(times.0, 8),
            first.challenge_digest,
            first.problem_digest,
            first.manifest_digest,
        ),
        (
            bytes::be_bytes(times.1, 8),
            second.challenge_digest,
            second.problem_digest,
            second.manifest_digest,
        ),
    );
    protocol::wire_ids_are_unambiguous(first.protocol, 1);
    protocol::wire_ids_are_unambiguous(second.protocol, 1);
    lemma_score(first.score, second.score);
    lemma_two_fields(
        first.score.encoding(),
        canonical::framed(a_build),
        second.score.encoding(),
        canonical::framed(b_build),
    );
    assert(canonical::framed(a_build) + Seq::<u8>::empty() =~= canonical::framed(a_build));
    assert(canonical::framed(b_build) + Seq::<u8>::empty() =~= canonical::framed(b_build));
    canonical::framing_is_unambiguous(a_build, Seq::empty(), b_build, Seq::empty());
}

/// The signed bytes bind every field of a certificate: two valid certificates
/// with the same canonical bytes are the same.
pub proof fn certificate_bytes_bind_every_field(first: CertificateModel, second: CertificateModel)
    requires
        sized_certificate(first),
        sized_certificate(second),
        certificate::certificate_error(first) is None,
        certificate::certificate_error(second) is None,
        certificate::certificate_encoding(first) == certificate::certificate_encoding(second),
    ensures
        first == second,
{
    let issuers = (vstd::utf8::encode_utf8(first.issuer), vstd::utf8::encode_utf8(second.issuer));
    let keys = (vstd::utf8::encode_utf8(first.key_id), vstd::utf8::encode_utf8(second.key_id));
    lemma_encoding_parts(first);
    lemma_encoding_parts(second);
    bytes::lemma_be_bytes_len(3, 2);
    let after = (
        canonical::framed(keys.0) + tail_fields(first),
        canonical::framed(keys.1) + tail_fields(second),
    );
    lemma_two_fields(
        bytes::be_bytes(3, 2),
        canonical::framed(issuers.0) + after.0,
        bytes::be_bytes(3, 2),
        canonical::framed(issuers.1) + after.1,
    );
    canonical::framing_is_unambiguous(issuers.0, after.0, issuers.1, after.1);
    canonical::framing_is_unambiguous(keys.0, tail_fields(first), keys.1, tail_fields(second));
    lemma_tail_fields(first, second);
    vstd::utf8::encode_utf8_decode_utf8(first.issuer);
    vstd::utf8::encode_utf8_decode_utf8(second.issuer);
    vstd::utf8::encode_utf8_decode_utf8(first.key_id);
    vstd::utf8::encode_utf8_decode_utf8(second.key_id);
    vstd::utf8::encode_utf8_decode_utf8(first.validator_build);
    vstd::utf8::encode_utf8_decode_utf8(second.validator_build);
    assert(first =~= second);
}

} // verus!
