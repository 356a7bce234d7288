//! Validation manifests, certified scores and signed certificates.

use vstd::prelude::*;

use crate::binary64;
use crate::binary64::Binary64;
use crate::bytes;
use crate::canonical;
use crate::canonical::{
    domain_separated_digest, encode_to_vec, CanonicalEncode, Digest, Encoder,
};
use crate::protocol;
use crate::protocol::{
    validate_identifier, CertificateSchema, ProofProtocol, ProtocolError, ValidationSchema,
    CERTIFICATE_DIGEST_DOMAIN, CERTIFICATE_SIGNATURE_DOMAIN, DEFAULT_PUBLIC_EVALUATION_TERMS,
    MANIFEST_DIGEST_DOMAIN, MAX_DENOMINATOR_POWER, MAX_PUBLIC_EVALUATION_TERMS_LIMIT,
    MAX_QUERY_TRAJECTORIES, MAX_SOLUTION_ELEMENTS_LIMIT,
};
use crate::signing;
use crate::signing::{SignatureBytes, SigningKey, VerifyingKey};
use crate::text;

verus! {

/// What a proof may ask of a validator.
#[derive(Clone, Copy, Debug, PartialEq, Eq, Structural)]
pub struct ValidationManifest {
    pub schema: ValidationSchema,
    pub protocol: ProofProtocol,
    pub max_solution_elements: u64,
    pub max_public_matrix_terms: u64,
    pub max_public_rhs_terms: u64,
}

impl Default for ValidationManifest {
    fn default() -> (manifest: Self)
        ensures
            manifest == (ValidationManifest {
                schema: ValidationSchema::V1,
                protocol: ProofProtocol::DirectReferenceV1,
                max_solution_elements: 0x100_0000,
                max_public_matrix_terms: DEFAULT_PUBLIC_EVALUATION_TERMS,
                max_public_rhs_terms: DEFAULT_PUBLIC_EVALUATION_TERMS,
            }),
    {
        ValidationManifest {
            schema: ValidationSchema::V1,
            protocol: ProofProtocol::DirectReferenceV1,
            max_solution_elements: 0x100_0000,
            max_public_matrix_terms: DEFAULT_PUBLIC_EVALUATION_TERMS,
            max_public_rhs_terms: DEFAULT_PUBLIC_EVALUATION_TERMS,
        }
    }
}

/// A term limit that a manifest or a service may set.
pub open spec fn valid_term_limit(terms: u64) -> bool {
    0 < terms <= MAX_PUBLIC_EVALUATION_TERMS_LIMIT
}

/// The refusal of a manifest, if any.
pub open spec fn manifest_error(manifest: ValidationManifest) -> Option<ProtocolError> {
    if !(0 < manifest.max_solution_elements <= MAX_SOLUTION_ELEMENTS_LIMIT) {
        Some(ProtocolError::InvalidSolutionLimit)
    } else if !valid_term_limit(manifest.max_public_matrix_terms) || !valid_term_limit(
        manifest.max_public_rhs_terms,
    ) {
        Some(ProtocolError::InvalidPublicEvaluationLimit)
    } else {
        None
    }
}

/// The canonical bytes of a manifest.
pub open spec fn manifest_encoding(manifest: ValidationManifest) -> Seq<u8> {
    bytes::be_bytes(1, 2) + bytes::be_bytes(manifest.protocol.id() as nat, 2) + bytes::be_bytes(
        manifest.max_solution_elements as nat,
        8,
    ) + bytes::be_bytes(manifest.max_public_matrix_terms as nat, 8) + bytes::be_bytes(
        manifest.max_public_rhs_terms as nat,
        8,
    )
}

/// The digest of a manifest.
pub open spec fn manifest_digest(manifest: ValidationManifest) -> Seq<u8> {
    canonical::domain_digest(
        vstd::utf8::encode_utf8(MANIFEST_DIGEST_DOMAIN@),
        manifest_encoding(manifest),
    )
}

impl ValidationManifest {
    pub fn validate(&self) -> (result: Result<(), ProtocolError>)
        ensures
            protocol::checks(result, manifest_error(*self)),
    {
        if self.max_solution_elements == 0
            || self.max_solution_elements > MAX_SOLUTION_ELEMENTS_LIMIT {
            return Err(ProtocolError::InvalidSolutionLimit);
        }
        if self.max_public_matrix_terms == 0
            || self.max_public_matrix_terms > MAX_PUBLIC_EVALUATION_TERMS_LIMIT
            || self.max_public_rhs_terms == 0
            || self.max_public_rhs_terms > MAX_PUBLIC_EVALUATION_TERMS_LIMIT {
            return Err(ProtocolError::InvalidPublicEvaluationLimit);
        }
        Ok(())
    }

    pub fn digest(&self) -> (result: Result<Digest, ProtocolError>)
        ensures
            (match manifest_error(*self) {
                Some(refused) => result matches Err(error) && error == refused,
                None => result matches Ok(digest) && digest@ == manifest_digest(*self),
            }),
    {
        match self.validate() {
            Ok(_) => {},
            Err(error) => {
                return Err(error);
            },
        }
        let encoded = encode_to_vec(self);
        Ok(domain_separated_digest(MANIFEST_DIGEST_DOMAIN.as_bytes(), encoded.as_slice()))
    }
}

impl CanonicalEncode for ValidationManifest {
    open spec fn encoding(&self) -> Seq<u8> {
        manifest_encoding(*self)
    }

    fn encode(&self, encoder: &mut Encoder) {
        let ghost start = encoder@;
        encoder.write_u16(1);
        encoder.write_u16(self.protocol.wire_id());
        encoder.write_u64(self.max_solution_elements);
        encoder.write_u64(self.max_public_matrix_terms);
        encoder.write_u64(self.max_public_rhs_terms);
        assert(encoder@ =~= start + self.encoding());
    }
}

/// Manifests with the same canonical bytes are the same.
pub proof fn manifest_encoding_is_injective(first: ValidationManifest, second: ValidationManifest)
    requires
        manifest_encoding(first) == manifest_encoding(second),
    ensures
        first == second,
{
    bytes::lemma_byte_powers();
    bytes::lemma_be_bytes_len(1, 2);
    lemma_manifest_fields(first);
    lemma_manifest_fields(second);
    protocol::wire_ids_are_unambiguous(first.protocol, 1);
    protocol::wire_ids_are_unambiguous(second.protocol, 1);
}

proof fn lemma_manifest_fields(manifest: ValidationManifest)
    ensures
        ({
            let encoded = manifest_encoding(manifest);
            &&& bytes::be_value(encoded.subrange(2, 4)) == manifest.protocol.id()
            &&& bytes::be_value(encoded.subrange(4, 12)) == manifest.max_solution_elements
            &&& bytes::be_value(encoded.subrange(12, 20)) == manifest.max_public_matrix_terms
            &&& bytes::be_value(encoded.subrange(20, 28)) == manifest.max_public_rhs_terms
        }),
{
    let encoded = manifest_encoding(manifest);
    let id = manifest.protocol.id() as nat;
    let elements = manifest.max_solution_elements as nat;
    let matrix = manifest.max_public_matrix_terms as nat;
    let rhs = manifest.max_public_rhs_terms as nat;
    bytes::lemma_byte_powers();
    bytes::lemma_be_bytes_len(1, 2);
    bytes::lemma_be_bytes_len(id, 2);
    bytes::lemma_be_bytes_len(elements, 8);
    bytes::lemma_be_bytes_len(matrix, 8);
    bytes::lemma_be_bytes_len(rhs, 8);
    bytes::lemma_be_round_trip(id, 2);
    bytes::lemma_be_round_trip(elements, 8);
    bytes::lemma_be_round_trip(matrix, 8);
    bytes::lemma_be_round_trip(rhs, 8);
    assert(encoded.subrange(2, 4) =~= bytes::be_bytes(id, 2));
    assert(encoded.subrange(4, 12) =~= bytes::be_bytes(elements, 8));
    assert(encoded.subrange(12, 20) =~= bytes::be_bytes(matrix, 8));
    assert(encoded.subrange(20, 28) =~= bytes::be_bytes(rhs, 8));
}

/// A finite binary64 without a sign.
pub open spec fn valid_metric(value: Binary64) -> bool {
    binary64::finite(value@) && !binary64::negative(value@)
}

fn is_valid_metric(value: Binary64) -> (valid: bool)
    ensures
        valid == valid_metric(value),
{
    value.is_finite() && !value.is_sign_negative()
}

/// The canonical bytes of a metric.
pub open spec fn metric_bytes(value: Binary64) -> Seq<u8> {
    bytes::be_bytes(value@ as nat, 8)
}

#[derive(Clone, Copy, Debug, PartialEq, Eq, Structural)]
pub struct ResidualMetrics {
    pub squared_l2: Binary64,
    pub l2: Binary64,
    pub rms: Binary64,
    pub max_abs: Binary64,
}

/// The refusal of residual metrics, if any.
pub open spec fn residual_error(metrics: ResidualMetrics) -> Option<ProtocolError> {
    if valid_metric(metrics.squared_l2) && valid_metric(metrics.l2) && valid_metric(metrics.rms)
        && valid_metric(metrics.max_abs) {
        None
    } else {
        Some(ProtocolError::InvalidResidual)
    }
}

impl ResidualMetrics {
    pub fn validate(&self) -> (result: Result<(), ProtocolError>)
        ensures
            protocol::checks(result, residual_error(*self)),
    {
        if is_valid_metric(self.squared_l2) && is_valid_metric(self.l2) && is_valid_metric(
            self.rms,
        ) && is_valid_metric(self.max_abs) {
            Ok(())
        } else {
            Err(ProtocolError::InvalidResidual)
        }
    }
}

impl CanonicalEncode for ResidualMetrics {
    open spec fn encoding(&self) -> Seq<u8> {
        metric_bytes(self.squared_l2) + metric_bytes(self.l2) + metric_bytes(self.rms)
            + metric_bytes(self.max_abs)
    }

    fn encode(&self, encoder: &mut Encoder) {
        let ghost start = encoder@;
        encoder.write_u64(self.squared_l2.to_bits());
        encoder.write_u64(self.l2.to_bits());
        encoder.write_u64(self.rms.to_bits());
        encoder.write_u64(self.max_abs.to_bits());
        assert(encoder@ =~= start + self.encoding());
    }
}

/// Canonical unsigned 192-bit integer, spelled as 48 lowercase hexadecimal
/// digits.
#[derive(Clone, Copy, Debug, PartialEq, Eq)]
pub struct Unsigned192 {
    bytes: [u8; 24],
}

impl View for Unsigned192 {
    type V = Seq<u8>;

    closed spec fn view(&self) -> Seq<u8> {
        self.bytes@
    }
}

/// An unsigned 192-bit integer is determined by its bytes.
pub proof fn lemma_determined_by_bytes(left: Unsigned192, right: Unsigned192)
    ensures
        (left == right) == (left@ == right@),
        left@.len() == 24,
{
    if left@ == right@ {
        assert(left.bytes == right.bytes);
    }
}

impl Unsigned192 {
    pub fn from_be_bytes(bytes: [u8; 24]) -> (value: Unsigned192)
        ensures
            value@ == bytes@,
    {
        Unsigned192 { bytes }
    }

    pub fn as_be_bytes(&self) -> (bytes: &[u8; 24])
        ensures
            bytes@ == self@,
    {
        &self.bytes
    }

    /// The lowercase hexadecimal spelling.
    pub fn to_hex(&self) -> (spelling: String)
        ensures
            spelling@ == text::hex_text(self@),
    {
        text::hex_encode(self.bytes.as_slice())
    }

    /// Reads exactly 48 lowercase hexadecimal characters.
    pub fn from_hex(spelling: &str) -> (result: Option<Unsigned192>)
        ensures
            (match result {
                Some(value) => spelling@ == text::hex_text(value@),
                None => forall|bytes: Seq<u8>|
                    bytes.len() == 24 ==> spelling@ != #[trigger] text::hex_text(bytes),
            }),
    {
        match text::parse_lower_hex(spelling) {
            Some(decoded) => if decoded.len() == 24 {
                Some(Unsigned192 { bytes: bytes::to_array_24(decoded.as_slice()) })
            } else {
                proof {
                    assert forall|bytes: Seq<u8>| bytes.len() == 24 implies spelling@
                        != #[trigger] text::hex_text(bytes) by {
                        assert(text::hex_text(bytes).len() == 48);
                    }
                }
                None
            },
            None => None,
        }
    }
}

impl CanonicalEncode for Unsigned192 {
    open spec fn encoding(&self) -> Seq<u8> {
        self@
    }

    fn encode(&self, encoder: &mut Encoder) {
        encoder.write_fixed_bytes(self.bytes.as_slice());
    }
}

/// One category of normalized binary64 consistency observations.
#[derive(Clone, Copy, Debug, PartialEq, Eq, Structural)]
pub struct DefectMetrics {
    pub maximum_absolute_defect: Binary64,
    pub maximum_normalized_defect: Binary64,
    pub rms_normalized_defect: Binary64,
    pub threshold_exceedances: u64,
}

/// Finite metrics without signs, no normalized defect above one, and no
/// threshold exceeded.
pub open spec fn valid_defects(metrics: DefectMetrics) -> bool {
    &&& valid_metric(metrics.maximum_absolute_defect)
    &&& valid_metric(metrics.maximum_normalized_defect)
    &&& valid_metric(metrics.rms_normalized_defect)
    &&& binary64::unit_magnitude(metrics.maximum_normalized_defect@)
        <= vstd::arithmetic::power2::pow2(1074)
    &&& metrics.threshold_exceedances == 0
}

/// The refusal of fast metrics that do not hold.
pub open spec fn fast_error(valid: bool) -> Option<ProtocolError> {
    if valid {
        None
    } else {
        Some(ProtocolError::InvalidFastConsistency)
    }
}

impl DefectMetrics {
    pub fn validate(&self) -> (result: Result<(), ProtocolError>)
        ensures
            protocol::checks(result, fast_error(valid_defects(*self))),
    {
        if !is_valid_metric(self.maximum_absolute_defect) || !is_valid_metric(
            self.maximum_normalized_defect,
        ) || !is_valid_metric(self.rms_normalized_defect) {
            return Err(ProtocolError::InvalidFastConsistency);
        }
        if !self.maximum_normalized_defect.is_at_most_one() || self.threshold_exceedances != 0 {
            return Err(ProtocolError::InvalidFastConsistency);
        }
        Ok(())
    }
}

impl CanonicalEncode for DefectMetrics {
    open spec fn encoding(&self) -> Seq<u8> {
        metric_bytes(self.maximum_absolute_defect) + metric_bytes(self.maximum_normalized_defect)
            + metric_bytes(self.rms_normalized_defect) + bytes::be_bytes(
            self.threshold_exceedances as nat,
            8,
        )
    }

    fn encode(&self, encoder: &mut Encoder) {
        let ghost start = encoder@;
        encoder.write_u64(self.maximum_absolute_defect.to_bits());
        encoder.write_u64(self.maximum_normalized_defect.to_bits());
        encoder.write_u64(self.rms_normalized_defect.to_bits());
        encoder.write_u64(self.threshold_exceedances);
        assert(encoder@ =~= start + self.encoding());
    }
}

/// Auditable summary of the provisional fast validator's four checks.
#[derive(Clone, Copy, Debug, PartialEq, Eq, Structural)]
pub struct FastConsistencyMetrics {
    pub norm_sumcheck: DefectMetrics,
    pub matvec_sumcheck: DefectMetrics,
    pub linear_opening: DefectMetrics,
    pub unit_circle_folds: DefectMetrics,
    pub recursive_query_trajectories: u32,
}

/// Four valid categories and one to 64 distinct trajectories.
pub open spec fn valid_consistency(metrics: FastConsistencyMetrics) -> bool {
    &&& valid_defects(metrics.norm_sumcheck)
    &&& valid_defects(metrics.matvec_sumcheck)
    &&& valid_defects(metrics.linear_opening)
    &&& valid_defects(metrics.unit_circle_folds)
    &&& 0 < metrics.recursive_query_trajectories <= MAX_QUERY_TRAJECTORIES
}

impl FastConsistencyMetrics {
    pub fn validate(&self) -> (result: Result<(), ProtocolError>)
        ensures
            protocol::checks(result, fast_error(valid_consistency(*self))),
    {
        match self.norm_sumcheck.validate() {
            Ok(_) => {},
            Err(error) => {
                return Err(error);
            },
        }
        match self.matvec_sumcheck.validate() {
            Ok(_) => {},
            Err(error) => {
                return Err(error);
            },
        }
        match self.linear_opening.validate() {
            Ok(_) => {},
            Err(error) => {
                return Err(error);
            },
        }
        match self.unit_circle_folds.validate() {
            Ok(_) => {},
            Err(error) => {
                return Err(error);
            },
        }
        // Query indices are distinct and transcript-derived. Small domains can
        // contain fewer than the policy target of unique trajectories.
        if self.recursive_query_trajectories == 0 || self.recursive_query_trajectories
            > MAX_QUERY_TRAJECTORIES {
            return Err(ProtocolError::InvalidFastConsistency);
        }
        Ok(())
    }
}

impl CanonicalEncode for FastConsistencyMetrics {
    open spec fn encoding(&self) -> Seq<u8> {
        self.norm_sumcheck.encoding() + self.matvec_sumcheck.encoding()
            + self.linear_opening.encoding() + self.unit_circle_folds.encoding() + bytes::be_bytes(
            self.recursive_query_trajectories as nat,
            4,
        )
    }

    fn encode(&self, encoder: &mut Encoder) {
        let ghost start = encoder@;
        self.norm_sumcheck.encode(encoder);
        self.matvec_sumcheck.encode(encoder);
        self.linear_opening.encode(encoder);
        self.unit_circle_folds.encode(encoder);
        encoder.write_u32(self.recursive_query_trajectories);
        assert(encoder@ =~= start + self.encoding());
    }
}

/// Protocol-specific score semantics carried by a signed certificate.
#[derive(Clone, Copy, Debug, PartialEq, Eq)]
pub enum CertifiedScore {
    DirectBinary64ResidualV1 { residual: ResidualMetrics },
    ExactDyadicSquaredL2V1 { numerator: Unsigned192, denominator_power: u32 },
    FastBinary64SquaredL2V1 { squared_l2: Binary64, consistency: FastConsistencyMetrics },
}

/// The refusal of a score for a protocol, if any.
pub open spec fn score_error(score: CertifiedScore, protocol: ProofProtocol) -> Option<
    ProtocolError,
> {
    match (protocol, score) {
        (
            ProofProtocol::DirectReferenceV1,
            CertifiedScore::DirectBinary64ResidualV1 { residual },
        ) => residual_error(residual),
        (
            ProofProtocol::WhirField192L2V4,
            CertifiedScore::ExactDyadicSquaredL2V1 { denominator_power, .. },
        ) => if 0 < denominator_power <= MAX_DENOMINATOR_POWER {
            None
        } else {
            Some(ProtocolError::InvalidExactDenominator)
        },
        (
            ProofProtocol::FastBinary64UnitCircleV3,
            CertifiedScore::FastBinary64SquaredL2V1 { squared_l2, consistency },
        ) => if !valid_metric(squared_l2) {
            Some(ProtocolError::InvalidResidual)
        } else {
            fast_error(valid_consistency(consistency))
        },
        _ => Some(ProtocolError::ScoreProtocolMismatch),
    }
}

impl CertifiedScore {
    pub fn validate_for(&self, protocol: ProofProtocol) -> (result: Result<(), ProtocolError>)
        ensures
            protocol::checks(result, score_error(*self, protocol)),
    {
        match (protocol, self) {
            (
                ProofProtocol::DirectReferenceV1,
                CertifiedScore::DirectBinary64ResidualV1 { residual },
            ) => residual.validate(),
            (
                ProofProtocol::WhirField192L2V4,
                CertifiedScore::ExactDyadicSquaredL2V1 { denominator_power, .. },
            ) => if *denominator_power == 0 || *denominator_power > MAX_DENOMINATOR_POWER {
                Err(ProtocolError::InvalidExactDenominator)
            } else {
                Ok(())
            },
            (
                ProofProtocol::FastBinary64UnitCircleV3,
                CertifiedScore::FastBinary64SquaredL2V1 { squared_l2, consistency },
            ) => if !is_valid_metric(*squared_l2) {
                Err(ProtocolError::InvalidResidual)
            } else {
                consistency.validate()
            },
            _ => Err(ProtocolError::ScoreProtocolMismatch),
        }
    }
}

impl CanonicalEncode for CertifiedScore {
    open spec fn encoding(&self) -> Seq<u8> {
        match self {
            CertifiedScore::DirectBinary64ResidualV1 { residual } => bytes::be_bytes(1, 2)
                + residual.encoding(),
            CertifiedScore::ExactDyadicSquaredL2V1 { numerator, denominator_power } => {
                bytes::be_bytes(2, 2) + numerator.encoding() + bytes::be_bytes(
                    *denominator_power as nat,
                    4,
                )
            },
            CertifiedScore::FastBinary64SquaredL2V1 { squared_l2, consistency } => {
                bytes::be_bytes(3, 2) + metric_bytes(*squared_l2) + consistency.encoding()
            },
        }
    }

    fn encode(&self, encoder: &mut Encoder) {
        let ghost start = encoder@;
        match self {
            CertifiedScore::DirectBinary64ResidualV1 { residual } => {
                encoder.write_u16(1);
                residual.encode(encoder);
            },
            CertifiedScore::ExactDyadicSquaredL2V1 { numerator, denominator_power } => {
                encoder.write_u16(2);
                numerator.encode(encoder);
                encoder.write_u32(*denominator_power);
            },
            CertifiedScore::FastBinary64SquaredL2V1 { squared_l2, consistency } => {
                encoder.write_u16(3);
                encoder.write_u64(squared_l2.to_bits());
                consistency.encode(encoder);
            },
        }
        assert(encoder@ =~= start + self.encoding());
    }
}

/// What a certificate payload says.
#[verifier::ext_equal]
pub struct CertificateModel {
    pub issuer: Seq<char>,
    pub key_id: Seq<char>,
    pub issued_at: i64,
    pub challenge_digest: Seq<u8>,
    pub problem_digest: Seq<u8>,
    pub manifest_digest: Seq<u8>,
    pub proof_digest: Seq<u8>,
    pub protocol: ProofProtocol,
    pub score: CertifiedScore,
    pub validator_build: Seq<char>,
}

#[derive(Debug, PartialEq, Eq)]
pub struct CertificatePayload {
    pub schema: CertificateSchema,
    pub issuer: String,
    pub key_id: String,
    pub issued_at_unix_seconds: i64,
    pub challenge_digest: Digest,
    pub problem_digest: Digest,
    pub validation_manifest_digest: Digest,
    pub proof_digest: Digest,
    pub protocol: ProofProtocol,
    pub score: CertifiedScore,
    pub validator_build: String,
}

impl View for CertificatePayload {
    type V = CertificateModel;

    open spec fn view(&self) -> CertificateModel {
        CertificateModel {
            issuer: self.issuer@,
            key_id: self.key_id@,
            issued_at: self.issued_at_unix_seconds,
            challenge_digest: self.challenge_digest@,
            problem_digest: self.problem_digest@,
            manifest_digest: self.validation_manifest_digest@,
            proof_digest: self.proof_digest@,
            protocol: self.protocol,
            score: self.score,
            validator_build: self.validator_build@,
        }
    }
}

impl Clone for CertificatePayload {
    fn clone(&self) -> (copy: Self)
        ensures
            copy@ == self@,
    {
        CertificatePayload {
            schema: self.schema,
            issuer: text::copy_text(self.issuer.as_str()),
            key_id: text::copy_text(self.key_id.as_str()),
            issued_at_unix_seconds: self.issued_at_unix_seconds,
            challenge_digest: self.challenge_digest,
            problem_digest: self.problem_digest,
            validation_manifest_digest: self.validation_manifest_digest,
            proof_digest: self.proof_digest,
            protocol: self.protocol,
            score: self.score,
            validator_build: text::copy_text(self.validator_build.as_str()),
        }
    }
}

/// The refusal of a certificate payload, if any.
pub open spec fn certificate_error(certificate: CertificateModel) -> Option<ProtocolError> {
    if !protocol::valid_identifier(certificate.issuer) {
        Some(ProtocolError::InvalidIdentifier { field: "issuer" })
    } else if !protocol::valid_identifier(certificate.key_id) {
        Some(ProtocolError::InvalidIdentifier { field: "key_id" })
    } else if !protocol::valid_identifier(certificate.validator_build) {
        Some(ProtocolError::InvalidIdentifier { field: "validator_build" })
    } else if certificate.issued_at < 0 {
        Some(ProtocolError::NegativeTimestamp)
    } else {
        score_error(certificate.score, certificate.protocol)
    }
}

/// The canonical bytes of a certificate payload.
pub open spec fn certificate_encoding(certificate: CertificateModel) -> Seq<u8> {
    bytes::be_bytes(3, 2) + canonical::framed(vstd::utf8::encode_utf8(certificate.issuer))
        + canonical::framed(vstd::utf8::encode_utf8(certificate.key_id)) + bytes::be_bytes(
        bytes::twos_complement_64(certificate.issued_at),
        8,
    ) + certificate.challenge_digest + certificate.problem_digest + certificate.manifest_digest
        + certificate.proof_digest + bytes::be_bytes(certificate.protocol.id() as nat, 2)
        + certificate.score.encoding() + canonical::framed(
        vstd::utf8::encode_utf8(certificate.validator_build),
    )
}

impl CertificatePayload {
    pub fn validate(&self) -> (result: Result<(), ProtocolError>)
        ensures
            protocol::checks(result, certificate_error(self@)),
    {
        match validate_identifier("issuer", self.issuer.as_str()) {
            Ok(_) => {},
            Err(error) => {
                return Err(error);
            },
        }
        match validate_identifier("key_id", self.key_id.as_str()) {
            Ok(_) => {},
            Err(error) => {
                return Err(error);
            },
        }
        match validate_identifier("validator_build", self.validator_build.as_str()) {
            Ok(_) => {},
            Err(error) => {
                return Err(error);
            },
        }
        if self.issued_at_unix_seconds < 0 {
            return Err(ProtocolError::NegativeTimestamp);
        }
        self.score.validate_for(self.protocol)
    }
}

impl CanonicalEncode for CertificatePayload {
    open spec fn encoding(&self) -> Seq<u8> {
        certificate_encoding(self@)
    }

    fn encode(&self, encoder: &mut Encoder) {
        let ghost start = encoder@;
        encoder.write_u16(3);
        encoder.write_str(self.issuer.as_str());
        encoder.write_str(self.key_id.as_str());
        encoder.write_i64(self.issued_at_unix_seconds);
        encoder.write_digest(&self.challenge_digest);
        encoder.write_digest(&self.problem_digest);
        encoder.write_digest(&self.validation_manifest_digest);
        encoder.write_digest(&self.proof_digest);
        encoder.write_u16(self.protocol.wire_id());
        self.score.encode(encoder);
        encoder.write_str(self.validator_build.as_str());
        assert(encoder@ =~= start + self.encoding());
    }
}

/// What a signed certificate says.
#[verifier::ext_equal]
pub struct SignedCertificateModel {
    pub payload: CertificateModel,
    pub signature: Seq<u8>,
}

#[derive(Debug, PartialEq, Eq)]
pub struct SignedCertificate {
    pub payload: CertificatePayload,
    pub signature: SignatureBytes,
}

impl View for SignedCertificate {
    type V = SignedCertificateModel;

    open spec fn view(&self) -> SignedCertificateModel {
        SignedCertificateModel { payload: self.payload@, signature: self.signature@ }
    }
}

impl Clone for SignedCertificate {
    fn clone(&self) -> (copy: Self)
        ensures
            copy@ == self@,
    {
        SignedCertificate { payload: self.payload.clone(), signature: self.signature }
    }
}

/// The message that a certificate signature covers.
pub open spec fn certificate_message(certificate: CertificateModel) -> Seq<u8> {
    protocol::signed_message(CERTIFICATE_SIGNATURE_DOMAIN@, certificate_encoding(certificate))
}

/// The refusal of a signed certificate by a verifier, if any.
pub open spec fn certificate_refusal(
    certificate: SignedCertificateModel,
    key: Seq<u8>,
    issuer: Seq<char>,
    key_id: Seq<char>,
) -> Option<ProtocolError> {
    let payload = certificate.payload;
    if certificate_error(payload) is Some {
        certificate_error(payload)
    } else if payload.issuer != issuer {
        Some(ProtocolError::IssuerMismatch)
    } else if payload.key_id != key_id {
        Some(ProtocolError::KeyIdMismatch)
    } else if !signing::ed25519_accepts(key, certificate_message(payload), certificate.signature) {
        Some(ProtocolError::InvalidSignature)
    } else {
        None
    }
}

/// The digest of a signed certificate.
pub open spec fn certificate_digest(certificate: SignedCertificateModel) -> Seq<u8> {
    canonical::domain_digest(
        vstd::utf8::encode_utf8(CERTIFICATE_DIGEST_DOMAIN@),
        certificate_encoding(certificate.payload) + certificate.signature,
    )
}

impl SignedCertificate {
    pub fn sign(payload: CertificatePayload, signing_key: &SigningKey) -> (result: Result<
        SignedCertificate,
        ProtocolError,
    >)
        ensures
            (match certificate_error(payload@) {
                Some(refused) => result matches Err(error) && error == refused,
                None => result matches Ok(certificate) && certificate@ == (SignedCertificateModel {
                    payload: payload@,
                    signature: signing::ed25519_signature(
                        signing_key@,
                        certificate_message(payload@),
                    ),
                }) && (certificate@.signature.take(32) != signing::neutral_point()
                    ==> signing::ed25519_accepts(
                    signing::ed25519_public_key(signing_key@),
                    certificate_message(payload@),
                    certificate@.signature,
                )),
            }),
    {
        match payload.validate() {
            Ok(_) => {},
            Err(error) => {
                return Err(error);
            },
        }
        let encoded = encode_to_vec(&payload);
        let message = protocol::signature_message(
            CERTIFICATE_SIGNATURE_DOMAIN,
            encoded.as_slice(),
        );
        let signature = signing_key.sign(message.as_slice());
        Ok(SignedCertificate { payload, signature })
    }

    pub fn verify(
        &self,
        verifying_key: &VerifyingKey,
        expected_issuer: &str,
        expected_key_id: &str,
    ) -> (result: Result<(), ProtocolError>)
        ensures
            protocol::checks(
                result,
                certificate_refusal(
                    self@,
                    verifying_key@,
                    expected_issuer@,
                    expected_key_id@,
                ),
            ),
    {
        match self.payload.validate() {
            Ok(_) => {},
            Err(error) => {
                return Err(error);
            },
        }
        if !text::same_text(self.payload.issuer.as_str(), expected_issuer) {
            return Err(ProtocolError::IssuerMismatch);
        }
        if !text::same_text(self.payload.key_id.as_str(), expected_key_id) {
            return Err(ProtocolError::KeyIdMismatch);
        }
        let encoded = encode_to_vec(&self.payload);
        let message = protocol::signature_message(
            CERTIFICATE_SIGNATURE_DOMAIN,
            encoded.as_slice(),
        );
        if verifying_key.accepts(message.as_slice(), &self.signature) {
            Ok(())
        } else {
            Err(ProtocolError::InvalidSignature)
        }
    }

    pub fn digest(&self) -> (digest: Digest)
        ensures
            digest@ == certificate_digest(self@),
    {
        let mut encoded = encode_to_vec(&self.payload);
        encoded.extend_from_slice(self.signature.as_bytes().as_slice());
        assert(encoded@ =~= certificate_encoding(self@.payload) + self@.signature);
        domain_separated_digest(CERTIFICATE_DIGEST_DOMAIN.as_bytes(), encoded.as_slice())
    }
}

} // verus!
