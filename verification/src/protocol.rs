//! Transport-independent signed challenge and validation-certificate types.
//!
//! Signatures authenticate canonical typed payloads, never raw JSON. The same
//! types can therefore be carried over files, HTTP, or another transport.

use vstd::prelude::*;

use crate::bytes;
use crate::canonical;
use crate::canonical::{
    domain_separated_digest, encode_to_vec, CanonicalEncode, DecodeError, DecodeLimits, Digest,
    Encoder, Reader,
};
use crate::signing;
use crate::signing::{SignatureBytes, SigningKey, VerifyingKey};
use crate::text;

verus! {

pub const CHALLENGE_SIGNATURE_DOMAIN: &'static str = "sparse-solve/challenge-signature/ed25519/v1";

pub const CERTIFICATE_SIGNATURE_DOMAIN: &'static str =
    "sparse-solve/certificate-signature/ed25519/v3";

pub const CHALLENGE_DIGEST_DOMAIN: &'static str = "sparse-solve/challenge/v1";

pub const MANIFEST_DIGEST_DOMAIN: &'static str = "sparse-solve/validation-manifest/v1";

pub const CERTIFICATE_DIGEST_DOMAIN: &'static str = "sparse-solve/certificate/v3";

/// Longest accepted identifier.
pub const MAX_ID_BYTES: usize = 256;

/// Longest accepted canonical challenge.
pub const MAX_CHALLENGE_BYTES: usize = 2048;

/// Largest solution length that any manifest may allow.
pub const MAX_SOLUTION_ELEMENTS_LIMIT: u64 = 0x4000_0000;

/// Largest public-evaluation term count that any manifest may allow.
pub const MAX_PUBLIC_EVALUATION_TERMS_LIMIT: u64 = 0x10_0000;

/// Public-evaluation term count of a manifest that names none.
pub const DEFAULT_PUBLIC_EVALUATION_TERMS: u64 = 4096;

/// Most distinct recursive query trajectories of a fast certificate.
pub const MAX_QUERY_TRAJECTORIES: u32 = 64;

/// Largest denominator power of an exact score.
pub const MAX_DENOMINATOR_POWER: u32 = 512;

#[derive(Clone, Copy, Debug, PartialEq, Eq, Structural)]
pub enum ChallengeSchema {
    V1,
}

#[derive(Clone, Copy, Debug, PartialEq, Eq, Structural)]
pub enum RetryPolicy {
    /// The service is stateless: a valid unexpired challenge may be reused.
    ReplayAllowedV1,
}

#[derive(Clone, Copy, Debug, PartialEq, Eq, Structural)]
pub enum ValidationSchema {
    V1,
}

#[derive(Clone, Copy, Debug, PartialEq, Eq, Structural)]
pub enum CertificateSchema {
    V3,
}

/// Why canonical challenge bytes were refused.
#[derive(Clone, Copy, Debug, PartialEq, Eq, Structural)]
pub enum CanonicalError {
    Decode { error: DecodeError },
    UnsupportedSchemaTag { tag: u16 },
    UnsupportedRetryTag { tag: u16 },
}

/// Why a signed protocol object was refused.
#[derive(Clone, Copy, Debug, PartialEq, Eq)]
pub enum ProtocolError {
    /// An identifier is not 1 to 256 visible ASCII bytes without spaces.
    InvalidIdentifier { field: &'static str },
    /// A challenge does not expire after it is issued.
    InvalidChallengeWindow,
    /// A timestamp lies before the Unix epoch.
    NegativeTimestamp,
    /// The allowed clock skew is negative.
    InvalidClockSkew,
    /// A challenge was issued too far in the future.
    ChallengeFromFuture,
    /// A challenge expired at a Unix timestamp.
    ChallengeExpired { at: i64 },
    /// A payload names another issuer.
    IssuerMismatch,
    /// A payload names another key.
    KeyIdMismatch,
    /// A signature does not verify.
    InvalidSignature,
    /// A manifest allows no or too many solution elements.
    InvalidSolutionLimit,
    /// A manifest allows no or too many public-evaluation terms.
    InvalidPublicEvaluationLimit,
    /// A certificate holds a non-finite or negative residual metric.
    InvalidResidual,
    /// A score has other semantics than the proof protocol.
    ScoreProtocolMismatch,
    /// A certificate holds invalid or policy-failing fast metrics.
    InvalidFastConsistency,
    /// A certificate holds an invalid exact residual denominator.
    InvalidExactDenominator,
    /// Challenge bytes are not canonical.
    Canonical { error: CanonicalError },
}

/// The registered proof protocols.
#[derive(Clone, Copy, Debug, PartialEq, Eq, Structural)]
pub enum ProofProtocol {
    /// Integration and reference backend. The artifact carries the complete
    /// solution.
    DirectReferenceV1,
    /// Exact Q63.64 relation with field sumchecks and a pinned commitment.
    WhirField192L2V4,
    /// Experimental binary64 metric certificate with unit-circle openings.
    FastBinary64UnitCircleV3,
}

impl ProofProtocol {
    pub open spec fn id(self) -> u16 {
        match self {
            ProofProtocol::DirectReferenceV1 => 1,
            ProofProtocol::WhirField192L2V4 => 2,
            ProofProtocol::FastBinary64UnitCircleV3 => 4,
        }
    }

    /// Stable discriminator used by common proof containers and signatures.
    pub fn wire_id(self) -> (id: u16)
        ensures
            id == self.id(),
    {
        match self {
            ProofProtocol::DirectReferenceV1 => 1,
            ProofProtocol::WhirField192L2V4 => 2,
            ProofProtocol::FastBinary64UnitCircleV3 => 4,
        }
    }

    /// Decodes a stable wire discriminator without accepting unknown backends.
    pub fn from_wire_id(value: u16) -> (protocol: Option<ProofProtocol>)
        ensures
            protocol == protocol_of(value),
    {
        match value {
            1 => Some(ProofProtocol::DirectReferenceV1),
            2 => Some(ProofProtocol::WhirField192L2V4),
            4 => Some(ProofProtocol::FastBinary64UnitCircleV3),
            _ => None,
        }
    }
}

/// The protocol with a wire discriminator.
pub open spec fn protocol_of(value: u16) -> Option<ProofProtocol> {
    if value == 1 {
        Some(ProofProtocol::DirectReferenceV1)
    } else if value == 2 {
        Some(ProofProtocol::WhirField192L2V4)
    } else if value == 4 {
        Some(ProofProtocol::FastBinary64UnitCircleV3)
    } else {
        None
    }
}

/// Wire discriminators are unambiguous: each protocol is found by its own.
pub proof fn wire_ids_are_unambiguous(protocol: ProofProtocol, value: u16)
    ensures
        protocol_of(protocol.id()) == Some(protocol),
        protocol_of(value) matches Some(found) ==> found.id() == value,
{
}

/// One to 256 visible ASCII bytes without spaces.
pub open spec fn valid_identifier(value: Seq<char>) -> bool {
    let encoded = vstd::utf8::encode_utf8(value);
    &&& 0 < encoded.len() <= MAX_ID_BYTES
    &&& forall|i: int| 0 <= i < encoded.len() ==> 33 <= #[trigger] encoded[i] <= 126
}

/// Accepts an identifier.
pub fn validate_identifier(field: &'static str, value: &str) -> (result: Result<(), ProtocolError>)
    ensures
        result == (if valid_identifier(value@) {
            Ok::<(), ProtocolError>(())
        } else {
            Err(ProtocolError::InvalidIdentifier { field })
        }),
{
    let encoded = value.as_bytes();
    if encoded.len() == 0 || encoded.len() > MAX_ID_BYTES {
        return Err(ProtocolError::InvalidIdentifier { field });
    }
    let mut index: usize = 0;
    while index < encoded.len()
        invariant
            encoded@ == vstd::utf8::encode_utf8(value@),
            index <= encoded@.len() <= MAX_ID_BYTES,
            forall|i: int| 0 <= i < index ==> 33 <= #[trigger] encoded@[i] <= 126,
        decreases encoded@.len() - index,
    {
        let byte: u8 = encoded[index];
        if byte < 33 || byte > 126 {
            assert(!valid_identifier(value@)) by {
                assert(encoded@[index as int] == byte);
            }
            return Err(ProtocolError::InvalidIdentifier { field });
        }
        index = index + 1;
    }
    Ok(())
}

/// What a challenge payload says.
#[verifier::ext_equal]
pub struct ChallengeModel {
    pub issuer: Seq<char>,
    pub key_id: Seq<char>,
    pub issued_at: i64,
    pub expires_at: i64,
    pub entropy: Seq<u8>,
    pub template_digest: Seq<u8>,
}

/// The bytes fixed and signed by the challenge issuer.
#[derive(Debug, PartialEq, Eq)]
pub struct ChallengePayload {
    pub schema: ChallengeSchema,
    pub issuer: String,
    pub key_id: String,
    pub issued_at_unix_seconds: i64,
    pub expires_at_unix_seconds: i64,
    pub entropy: Digest,
    pub problem_template_digest: Digest,
    pub retry_policy: RetryPolicy,
}

impl View for ChallengePayload {
    type V = ChallengeModel;

    open spec fn view(&self) -> ChallengeModel {
        ChallengeModel {
            issuer: self.issuer@,
            key_id: self.key_id@,
            issued_at: self.issued_at_unix_seconds,
            expires_at: self.expires_at_unix_seconds,
            entropy: self.entropy@,
            template_digest: self.problem_template_digest@,
        }
    }
}

impl Clone for ChallengePayload {
    fn clone(&self) -> (copy: Self)
        ensures
            copy@ == self@,
    {
        ChallengePayload {
            schema: self.schema,
            issuer: text::copy_text(self.issuer.as_str()),
            key_id: text::copy_text(self.key_id.as_str()),
            issued_at_unix_seconds: self.issued_at_unix_seconds,
            expires_at_unix_seconds: self.expires_at_unix_seconds,
            entropy: self.entropy,
            problem_template_digest: self.problem_template_digest,
            retry_policy: self.retry_policy,
        }
    }
}

/// The refusal of a challenge payload, if any.
pub open spec fn challenge_error(challenge: ChallengeModel) -> Option<ProtocolError> {
    if !valid_identifier(challenge.issuer) {
        Some(ProtocolError::InvalidIdentifier { field: "issuer" })
    } else if !valid_identifier(challenge.key_id) {
        Some(ProtocolError::InvalidIdentifier { field: "key_id" })
    } else if challenge.issued_at < 0 || challenge.expires_at < 0 {
        Some(ProtocolError::NegativeTimestamp)
    } else if challenge.expires_at <= challenge.issued_at {
        Some(ProtocolError::InvalidChallengeWindow)
    } else {
        None
    }
}

/// Whether a check refuses exactly as an optional error says.
pub open spec fn checks(result: Result<(), ProtocolError>, error: Option<ProtocolError>) -> bool {
    match error {
        Some(refused) => result == Err::<(), ProtocolError>(refused),
        None => result == Ok::<(), ProtocolError>(()),
    }
}

/// The canonical bytes of a challenge payload.
pub open spec fn challenge_encoding(challenge: ChallengeModel) -> Seq<u8> {
    bytes::be_bytes(1, 2) + canonical::framed(vstd::utf8::encode_utf8(challenge.issuer))
        + canonical::framed(vstd::utf8::encode_utf8(challenge.key_id)) + bytes::be_bytes(
        bytes::twos_complement_64(challenge.issued_at),
        8,
    ) + bytes::be_bytes(bytes::twos_complement_64(challenge.expires_at), 8) + challenge.entropy
        + challenge.template_digest + bytes::be_bytes(1, 2)
}

impl ChallengePayload {
    pub fn validate(&self) -> (result: Result<(), ProtocolError>)
        ensures
            checks(result, challenge_error(self@)),
    {
        match validate_identifier("issuer", self.issuer.as_str()) {
            Ok(_) => {},
            Err(error) => {
                return Err(error);
            },
        }
        match validate_identifier("key_id", self.key_id.as_str()) {
            Ok(_) => {},
            Err(error) => {
                return Err(error);
            },
        }
        if self.issued_at_unix_seconds < 0 || self.expires_at_unix_seconds < 0 {
            return Err(ProtocolError::NegativeTimestamp);
        }
        if self.expires_at_unix_seconds <= self.issued_at_unix_seconds {
            return Err(ProtocolError::InvalidChallengeWindow);
        }
        Ok(())
    }
}

impl CanonicalEncode for ChallengePayload {
    open spec fn encoding(&self) -> Seq<u8> {
        challenge_encoding(self@)
    }

    fn encode(&self, encoder: &mut Encoder) {
        let ghost start = encoder@;
        encoder.write_u16(1);
        encoder.write_str(self.issuer.as_str());
        encoder.write_str(self.key_id.as_str());
        encoder.write_i64(self.issued_at_unix_seconds);
        encoder.write_i64(self.expires_at_unix_seconds);
        encoder.write_digest(&self.entropy);
        encoder.write_digest(&self.problem_template_digest);
        encoder.write_u16(1);
        assert(encoder@ =~= start + self.encoding());
    }
}

/// What is signed: a domain and a payload, each behind its length.
pub open spec fn signed_message(domain: Seq<char>, payload: Seq<u8>) -> Seq<u8> {
    canonical::framed(vstd::utf8::encode_utf8(domain)) + canonical::framed(payload)
}

pub(crate) fn signature_message(domain: &str, payload: &[u8]) -> (message: Vec<u8>)
    ensures
        message@ == signed_message(domain@, payload@),
{
    let mut output = Encoder::new();
    output.write_str(domain);
    output.write_bytes(payload);
    assert(output@ =~= signed_message(domain@, payload@));
    output.into_bytes()
}

/// What a signed challenge says.
#[verifier::ext_equal]
pub struct SignedChallengeModel {
    pub payload: ChallengeModel,
    pub signature: Seq<u8>,
}

#[derive(Debug, PartialEq, Eq)]
pub struct SignedChallenge {
    pub payload: ChallengePayload,
    pub signature: SignatureBytes,
}

impl View for SignedChallenge {
    type V = SignedChallengeModel;

    open spec fn view(&self) -> SignedChallengeModel {
        SignedChallengeModel { payload: self.payload@, signature: self.signature@ }
    }
}

impl Clone for SignedChallenge {
    fn clone(&self) -> (copy: Self)
        ensures
            copy@ == self@,
    {
        SignedChallenge { payload: self.payload.clone(), signature: self.signature }
    }
}

/// The message that a challenge signature covers.
pub open spec fn challenge_message(challenge: ChallengeModel) -> Seq<u8> {
    signed_message(CHALLENGE_SIGNATURE_DOMAIN@, challenge_encoding(challenge))
}

/// The latest issue time that a clock with a tolerance accepts.
pub open spec fn latest_issue(now: int, skew: int) -> int {
    if now + skew > i64::MAX {
        i64::MAX as int
    } else {
        now + skew
    }
}

/// The refusal of a signed challenge by a verifier, if any.
pub open spec fn challenge_refusal(
    challenge: SignedChallengeModel,
    key: Seq<u8>,
    issuer: Seq<char>,
    key_id: Seq<char>,
    now: i64,
    skew: i64,
) -> Option<ProtocolError> {
    let payload = challenge.payload;
    if challenge_error(payload) is Some {
        challenge_error(payload)
    } else if now < 0 {
        Some(ProtocolError::NegativeTimestamp)
    } else if skew < 0 {
        Some(ProtocolError::InvalidClockSkew)
    } else if payload.issuer != issuer {
        Some(ProtocolError::IssuerMismatch)
    } else if payload.key_id != key_id {
        Some(ProtocolError::KeyIdMismatch)
    } else if payload.issued_at > latest_issue(now as int, skew as int) {
        Some(ProtocolError::ChallengeFromFuture)
    } else if now > payload.expires_at {
        Some(ProtocolError::ChallengeExpired { at: payload.expires_at })
    } else if !signing::ed25519_accepts(key, challenge_message(payload), challenge.signature) {
        Some(ProtocolError::InvalidSignature)
    } else {
        None
    }
}

/// The canonical bytes of a signed challenge.
pub open spec fn signed_challenge_bytes(challenge: SignedChallengeModel) -> Seq<u8> {
    challenge_encoding(challenge.payload) + challenge.signature
}

/// The digest of a signed challenge.
pub open spec fn challenge_digest(challenge: SignedChallengeModel) -> Seq<u8> {
    canonical::domain_digest(
        vstd::utf8::encode_utf8(CHALLENGE_DIGEST_DOMAIN@),
        signed_challenge_bytes(challenge),
    )
}

impl SignedChallenge {
    pub fn sign(payload: ChallengePayload, signing_key: &SigningKey) -> (result: Result<
        SignedChallenge,
        ProtocolError,
    >)
        ensures
            (match challenge_error(payload@) {
                Some(refused) => result matches Err(error) && error == refused,
                None => result matches Ok(challenge) && challenge@ == (SignedChallengeModel {
                    payload: payload@,
                    signature: signing::ed25519_signature(
                        signing_key@,
                        challenge_message(payload@),
                    ),
                }) && (challenge@.signature.take(32) != signing::neutral_point()
                    ==> signing::ed25519_accepts(
                    signing::ed25519_public_key(signing_key@),
                    challenge_message(payload@),
                    challenge@.signature,
                )),
            }),
    {
        match payload.validate() {
            Ok(_) => {},
            Err(error) => {
                return Err(error);
            },
        }
        let encoded = encode_to_vec(&payload);
        let message = signature_message(CHALLENGE_SIGNATURE_DOMAIN, encoded.as_slice());
        let signature = signing_key.sign(message.as_slice());
        Ok(SignedChallenge { payload, signature })
    }

    pub fn verify(
        &self,
        verifying_key: &VerifyingKey,
        expected_issuer: &str,
        expected_key_id: &str,
        now_unix_seconds: i64,
        maximum_future_skew_seconds: i64,
    ) -> (result: Result<(), ProtocolError>)
        ensures
            checks(
                result,
                challenge_refusal(
                    self@,
                    verifying_key@,
                    expected_issuer@,
                    expected_key_id@,
                    now_unix_seconds,
                    maximum_future_skew_seconds,
                ),
            ),
    {
        match self.payload.validate() {
            Ok(_) => {},
            Err(error) => {
                return Err(error);
            },
        }
        if now_unix_seconds < 0 {
            return Err(ProtocolError::NegativeTimestamp);
        }
        if maximum_future_skew_seconds < 0 {
            return Err(ProtocolError::InvalidClockSkew);
        }
        if !text::same_text(self.payload.issuer.as_str(), expected_issuer) {
            return Err(ProtocolError::IssuerMismatch);
        }
        if !text::same_text(self.payload.key_id.as_str(), expected_key_id) {
            return Err(ProtocolError::KeyIdMismatch);
        }
        let latest: i64 = if now_unix_seconds > i64::MAX - maximum_future_skew_seconds {
            i64::MAX
        } else {
            now_unix_seconds + maximum_future_skew_seconds
        };
        if self.payload.issued_at_unix_seconds > latest {
            return Err(ProtocolError::ChallengeFromFuture);
        }
        if now_unix_seconds > self.payload.expires_at_unix_seconds {
            return Err(
                ProtocolError::ChallengeExpired { at: self.payload.expires_at_unix_seconds },
            );
        }
        let encoded = encode_to_vec(&self.payload);
        let message = signature_message(CHALLENGE_SIGNATURE_DOMAIN, encoded.as_slice());
        if verifying_key.accepts(message.as_slice(), &self.signature) {
            Ok(())
        } else {
            Err(ProtocolError::InvalidSignature)
        }
    }

    /// Returns the canonical payload bytes used as the problem challenge
    /// context.
    ///
    /// The problem layer derives its instance seed from these bytes and the
    /// typed template digest. Signature bytes deliberately do not participate.
    pub fn payload_canonical_bytes(&self) -> (encoded: Vec<u8>)
        ensures
            encoded@ == challenge_encoding(self@.payload),
    {
        encode_to_vec(&self.payload)
    }

    pub fn digest(&self) -> (digest: Digest)
        ensures
            digest@ == challenge_digest(self@),
    {
        let encoded = self.to_canonical_bytes();
        domain_separated_digest(CHALLENGE_DIGEST_DOMAIN.as_bytes(), encoded.as_slice())
    }

    pub fn to_canonical_bytes(&self) -> (encoded: Vec<u8>)
        ensures
            encoded@ == signed_challenge_bytes(self@),
    {
        let mut output = Encoder::new();
        self.payload.encode(&mut output);
        output.write_fixed_bytes(self.signature.as_bytes().as_slice());
        assert(output@ =~= signed_challenge_bytes(self@));
        output.into_bytes()
    }
}

/// The refusal of bytes that cannot be decoded.
pub open spec fn undecodable(error: DecodeError) -> Result<SignedChallengeModel, ProtocolError> {
    Err(ProtocolError::Canonical { error: CanonicalError::Decode { error } })
}

/// What follows the two identifiers of a canonical challenge: two timestamps,
/// two digests, the retry tag and the signature, and nothing else.
pub open spec fn decode_challenge_rest(
    issuer: Seq<char>,
    key_id: Seq<char>,
    input: Seq<u8>,
) -> Result<SignedChallengeModel, ProtocolError> {
    if input.len() < 82 {
        undecodable(DecodeError::UnexpectedEnd)
    } else {
        let retry = bytes::be_value(input.subrange(80, 82));
        let payload = ChallengeModel {
            issuer,
            key_id,
            issued_at: bytes::signed_64(bytes::be_value(input.subrange(0, 8))) as i64,
            expires_at: bytes::signed_64(bytes::be_value(input.subrange(8, 16))) as i64,
            entropy: input.subrange(16, 48),
            template_digest: input.subrange(48, 80),
        };
        if retry != 1 {
            Err(
                ProtocolError::Canonical {
                    error: CanonicalError::UnsupportedRetryTag { tag: retry as u16 },
                },
            )
        } else if input.len() < 146 {
            undecodable(DecodeError::UnexpectedEnd)
        } else if input.len() > 146 {
            undecodable(DecodeError::TrailingBytes { remaining: (input.len() - 146) as usize })
        } else {
            match challenge_error(payload) {
                Some(error) => Err(error),
                None => Ok(
                    SignedChallengeModel { payload, signature: input.subrange(82, 146) },
                ),
            }
        }
    }
}

/// What decoding a canonical challenge gives.
pub open spec fn decode_challenge(input: Seq<u8>) -> Result<SignedChallengeModel, ProtocolError> {
    if input.len() > MAX_CHALLENGE_BYTES {
        undecodable(
            DecodeError::InputTooLarge {
                actual: input.len() as usize,
                maximum: MAX_CHALLENGE_BYTES,
            },
        )
    } else if input.len() < 2 {
        undecodable(DecodeError::UnexpectedEnd)
    } else {
        let tag = bytes::be_value(input.take(2));
        let first = input.skip(2);
        if tag != 1 {
            Err(
                ProtocolError::Canonical {
                    error: CanonicalError::UnsupportedSchemaTag { tag: tag as u16 },
                },
            )
        } else {
            match canonical::text_outcome(first, MAX_ID_BYTES) {
                Err(error) => undecodable(error),
                Ok(issuer) => {
                    let second = first.skip(8 + vstd::utf8::encode_utf8(issuer).len() as int);
                    match canonical::text_outcome(second, MAX_ID_BYTES) {
                        Err(error) => undecodable(error),
                        Ok(key_id) => decode_challenge_rest(
                            issuer,
                            key_id,
                            second.skip(8 + vstd::utf8::encode_utf8(key_id).len() as int),
                        ),
                    }
                },
            }
        }
    }
}

fn canonical_failure(error: DecodeError) -> (failure: ProtocolError)
    ensures
        failure == (ProtocolError::Canonical { error: CanonicalError::Decode { error } }),
{
    ProtocolError::Canonical { error: CanonicalError::Decode { error } }
}

/// Reads what follows the two identifiers.
fn read_challenge_rest(issuer: String, key_id: String, input: &mut Reader<'_>) -> (result: Result<
    SignedChallenge,
    ProtocolError,
>)
    requires
        old(input).wf(),
    ensures
        (match decode_challenge_rest(issuer@, key_id@, old(input).rest()) {
            Ok(expected) => result matches Ok(challenge) && challenge@ == expected,
            Err(refused) => result matches Err(error) && error == refused,
        }),
{
    let ghost start = input.rest();
    let issued_at_unix_seconds: i64 = match input.read_i64() {
        Ok(value) => value,
        Err(error) => {
            return Err(canonical_failure(error));
        },
    };
    let expires_at_unix_seconds: i64 = match input.read_i64() {
        Ok(value) => value,
        Err(error) => {
            return Err(canonical_failure(error));
        },
    };
    let entropy = match input.read_digest() {
        Ok(digest) => digest,
        Err(error) => {
            return Err(canonical_failure(error));
        },
    };
    let problem_template_digest = match input.read_digest() {
        Ok(digest) => digest,
        Err(error) => {
            return Err(canonical_failure(error));
        },
    };
    let retry: u16 = match input.read_u16() {
        Ok(value) => value,
        Err(error) => {
            return Err(canonical_failure(error));
        },
    };
    proof {
        assert(start.take(8) =~= start.subrange(0, 8));
        assert(start.skip(8).take(8) =~= start.subrange(8, 16));
        assert(start.skip(8).skip(8).take(32) =~= start.subrange(16, 48));
        assert(start.skip(8).skip(8).skip(32).take(32) =~= start.subrange(48, 80));
        assert(start.skip(8).skip(8).skip(32).skip(32).take(2) =~= start.subrange(80, 82));
        assert(input.rest() =~= start.skip(82));
    }
    if retry != 1 {
        return Err(
            ProtocolError::Canonical { error: CanonicalError::UnsupportedRetryTag { tag: retry } },
        );
    }
    let signature = match input.read_fixed_bytes(64) {
        Ok(found) => SignatureBytes::from_bytes(bytes::to_array_64(found)),
        Err(error) => {
            return Err(canonical_failure(error));
        },
    };
    proof {
        assert(start.skip(82).take(64) =~= start.subrange(82, 146));
        assert(input.rest() =~= start.skip(146));
    }
    match input.finish() {
        Ok(_) => {},
        Err(error) => {
            return Err(canonical_failure(error));
        },
    }
    let challenge = SignedChallenge {
        payload: ChallengePayload {
            schema: ChallengeSchema::V1,
            issuer,
            key_id,
            issued_at_unix_seconds,
            expires_at_unix_seconds,
            entropy,
            problem_template_digest,
            retry_policy: RetryPolicy::ReplayAllowedV1,
        },
        signature,
    };
    match challenge.payload.validate() {
        Ok(_) => Ok(challenge),
        Err(error) => Err(error),
    }
}

impl SignedChallenge {
    /// Strictly decodes exactly one canonical challenge.
    pub fn from_canonical_bytes(encoded: &[u8]) -> (result: Result<SignedChallenge, ProtocolError>)
        ensures
            (match decode_challenge(encoded@) {
                Ok(expected) => result matches Ok(challenge) && challenge@ == expected,
                Err(refused) => result matches Err(error) && error == refused,
            }),
    {
        let limits = DecodeLimits {
            max_input_bytes: MAX_CHALLENGE_BYTES,
            max_field_bytes: MAX_ID_BYTES,
        };
        let mut input = match Reader::new(encoded, limits) {
            Ok(reader) => reader,
            Err(error) => {
                return Err(canonical_failure(error));
            },
        };
        let schema: u16 = match input.read_u16() {
            Ok(value) => value,
            Err(error) => {
                return Err(canonical_failure(error));
            },
        };
        if schema != 1 {
            return Err(
                ProtocolError::Canonical {
                    error: CanonicalError::UnsupportedSchemaTag { tag: schema },
                },
            );
        }
        let issuer = match input.read_str(MAX_ID_BYTES) {
            Ok(value) => value,
            Err(error) => {
                return Err(canonical_failure(error));
            },
        };
        let key_id = match input.read_str(MAX_ID_BYTES) {
            Ok(value) => value,
            Err(error) => {
                return Err(canonical_failure(error));
            },
        };
        read_challenge_rest(issuer, key_id, &mut input)
    }
}

/// Fixed-size fields have their sizes.
pub open spec fn sized_challenge(challenge: SignedChallengeModel) -> bool {
    challenge.payload.entropy.len() == 32 && challenge.payload.template_digest.len() == 32
        && challenge.signature.len() == 64
}

/// A signed challenge has fields of their sizes.
pub proof fn lemma_signed_challenge_is_sized(challenge: SignedChallenge)
    ensures
        sized_challenge(challenge@),
{
    let payload = challenge.payload;
    canonical::lemma_digest_extensional(payload.entropy, payload.entropy);
    canonical::lemma_digest_extensional(
        payload.problem_template_digest,
        payload.problem_template_digest,
    );
    signing::lemma_signature_extensional(challenge.signature, challenge.signature);
}

proof fn lemma_rest_reads_back(challenge: SignedChallengeModel, rest: Seq<u8>)
    requires
        sized_challenge(challenge),
        challenge_error(challenge.payload) is None,
        rest == bytes::be_bytes(bytes::twos_complement_64(challenge.payload.issued_at), 8)
            + bytes::be_bytes(bytes::twos_complement_64(challenge.payload.expires_at), 8)
            + challenge.payload.entropy + challenge.payload.template_digest + bytes::be_bytes(1, 2)
            + challenge.signature,
    ensures
        rest.len() == 146,
        decode_challenge_rest(challenge.payload.issuer, challenge.payload.key_id, rest) == Ok::<
            SignedChallengeModel,
            ProtocolError,
        >(challenge),
{
    let issued = bytes::twos_complement_64(challenge.payload.issued_at);
    let expires = bytes::twos_complement_64(challenge.payload.expires_at);
    bytes::lemma_byte_powers();
    bytes::lemma_be_bytes_len(issued, 8);
    bytes::lemma_be_bytes_len(expires, 8);
    bytes::lemma_be_bytes_len(1, 2);
    bytes::lemma_be_round_trip(issued, 8);
    bytes::lemma_be_round_trip(expires, 8);
    bytes::lemma_be_round_trip(1, 2);
    assert(rest.subrange(0, 8) =~= bytes::be_bytes(issued, 8));
    assert(rest.subrange(8, 16) =~= bytes::be_bytes(expires, 8));
    assert(rest.subrange(16, 48) =~= challenge.payload.entropy);
    assert(rest.subrange(48, 80) =~= challenge.payload.template_digest);
    assert(rest.subrange(80, 82) =~= bytes::be_bytes(1, 2));
    assert(rest.subrange(82, 146) =~= challenge.signature);
}

/// A valid signed challenge reads back from its canonical bytes.
pub proof fn canonical_challenges_read_back(challenge: SignedChallengeModel)
    requires
        sized_challenge(challenge),
        challenge_error(challenge.payload) is None,
    ensures
        decode_challenge(signed_challenge_bytes(challenge)) == Ok::<
            SignedChallengeModel,
            ProtocolError,
        >(challenge),
{
    let input = signed_challenge_bytes(challenge);
    let issuer = vstd::utf8::encode_utf8(challenge.payload.issuer);
    let key_id = vstd::utf8::encode_utf8(challenge.payload.key_id);
    let rest = bytes::be_bytes(bytes::twos_complement_64(challenge.payload.issued_at), 8)
        + bytes::be_bytes(bytes::twos_complement_64(challenge.payload.expires_at), 8)
        + challenge.payload.entropy + challenge.payload.template_digest + bytes::be_bytes(1, 2)
        + challenge.signature;
    lemma_rest_reads_back(challenge, rest);
    bytes::lemma_byte_powers();
    bytes::lemma_be_bytes_len(1, 2);
    bytes::lemma_be_round_trip(1, 2);
    bytes::lemma_be_bytes_len(issuer.len(), 8);
    bytes::lemma_be_bytes_len(key_id.len(), 8);
    let second = canonical::framed(key_id) + rest;
    let first = canonical::framed(issuer) + second;
    assert(input =~= bytes::be_bytes(1, 2) + first);
    assert(input.take(2) =~= bytes::be_bytes(1, 2));
    assert(input.skip(2) =~= first);
    canonical::written_text_reads_back(challenge.payload.issuer, second, MAX_ID_BYTES);
    canonical::written_field_reads_back(issuer, second, MAX_ID_BYTES);
    canonical::written_text_reads_back(challenge.payload.key_id, rest, MAX_ID_BYTES);
    canonical::written_field_reads_back(key_id, rest, MAX_ID_BYTES);
}

/// Accepted bytes are the one canonical encoding of the challenge they decode
/// to.
pub proof fn challenge_bytes_are_canonical(input: Seq<u8>, challenge: SignedChallengeModel)
    requires
        decode_challenge(input) == Ok::<SignedChallengeModel, ProtocolError>(challenge),
    ensures
        input == signed_challenge_bytes(challenge),
        sized_challenge(challenge),
        challenge_error(challenge.payload) is None,
{
    let first = input.skip(2);
    let issuer = canonical::text_outcome(first, MAX_ID_BYTES)->Ok_0;
    let issuer_bytes = vstd::utf8::encode_utf8(issuer);
    canonical::read_text_was_written(first, MAX_ID_BYTES, issuer);
    let second = first.skip(8 + issuer_bytes.len() as int);
    let key_id = canonical::text_outcome(second, MAX_ID_BYTES)->Ok_0;
    let key_bytes = vstd::utf8::encode_utf8(key_id);
    canonical::read_text_was_written(second, MAX_ID_BYTES, key_id);
    let rest = second.skip(8 + key_bytes.len() as int);
    bytes::lemma_byte_powers();
    bytes::lemma_be_bytes_of_value(input.take(2));
    bytes::lemma_be_bytes_of_value(rest.subrange(0, 8));
    bytes::lemma_be_bytes_of_value(rest.subrange(8, 16));
    bytes::lemma_be_bytes_of_value(rest.subrange(80, 82));
    bytes::lemma_be_value_bound(rest.subrange(0, 8));
    bytes::lemma_be_value_bound(rest.subrange(8, 16));
    assert(bytes::be_bytes(1, 2) == input.take(2));
    assert(bytes::be_bytes(1, 2) == rest.subrange(80, 82));
    assert(bytes::be_bytes(bytes::twos_complement_64(challenge.payload.issued_at), 8)
        == rest.subrange(0, 8));
    assert(bytes::be_bytes(bytes::twos_complement_64(challenge.payload.expires_at), 8)
        == rest.subrange(8, 16));
    assert(rest =~= rest.subrange(0, 8) + rest.subrange(8, 16) + rest.subrange(16, 48)
        + rest.subrange(48, 80) + rest.subrange(80, 82) + rest.subrange(82, 146));
    assert(input =~= input.take(2) + first);
    assert(input =~= signed_challenge_bytes(challenge));
}

/// No accepted challenge is the beginning of another: truncating its bytes, or
/// adding bytes behind them, gives bytes that are refused.
pub proof fn challenges_are_prefix_free(input: Seq<u8>, extra: Seq<u8>)
    requires
        decode_challenge(input) is Ok,
        decode_challenge(input + extra) is Ok,
    ensures
        extra.len() == 0,
{
    let longer = input + extra;
    let first = input.skip(2);
    let issuer = canonical::text_outcome(first, MAX_ID_BYTES)->Ok_0;
    let issuer_bytes = vstd::utf8::encode_utf8(issuer);
    canonical::read_text_was_written(first, MAX_ID_BYTES, issuer);
    let second = first.skip(8 + issuer_bytes.len() as int);
    let key_id = canonical::text_outcome(second, MAX_ID_BYTES)->Ok_0;
    let key_bytes = vstd::utf8::encode_utf8(key_id);
    canonical::read_text_was_written(second, MAX_ID_BYTES, key_id);
    let rest = second.skip(8 + key_bytes.len() as int);
    assert(longer.skip(2) =~= first + extra);
    assert(first + extra =~= canonical::framed(issuer_bytes) + (second + extra));
    canonical::written_text_reads_back(issuer, second + extra, MAX_ID_BYTES);
    canonical::written_field_reads_back(issuer_bytes, second + extra, MAX_ID_BYTES);
    assert(second + extra =~= canonical::framed(key_bytes) + (rest + extra));
    canonical::written_text_reads_back(key_id, rest + extra, MAX_ID_BYTES);
    canonical::written_field_reads_back(key_bytes, rest + extra, MAX_ID_BYTES);
    assert(rest.len() == 146 && (rest + extra).len() == 146);
}

/// The challenge context binds the payload: two valid payloads with the same
/// canonical bytes are the same.
pub proof fn challenge_context_binds_the_payload(first: ChallengeModel, second: ChallengeModel)
    requires
        challenge_error(first) is None,
        challenge_error(second) is None,
        first.entropy.len() == 32,
        first.template_digest.len() == 32,
        second.entropy.len() == 32,
        second.template_digest.len() == 32,
        challenge_encoding(first) == challenge_encoding(second),
    ensures
        first == second,
{
    let signature = Seq::new(64, |i: int| 0u8);
    canonical_challenges_read_back(SignedChallengeModel { payload: first, signature });
    canonical_challenges_read_back(SignedChallengeModel { payload: second, signature });
}

/// A challenge whose signature its key accepts, as [`SignedChallenge::sign`]
/// ensures, verifies for its issuer and key identifier at every time between
/// its issue less the tolerance and its expiry.
pub proof fn signed_challenges_verify(
    challenge: SignedChallengeModel,
    seed: Seq<u8>,
    now: i64,
    skew: i64,
)
    requires
        challenge_error(challenge.payload) is None,
        signing::ed25519_accepts(
            signing::ed25519_public_key(seed),
            challenge_message(challenge.payload),
            challenge.signature,
        ),
        0 <= now <= challenge.payload.expires_at,
        0 <= skew,
        challenge.payload.issued_at <= now + skew,
    ensures
        challenge_refusal(
            challenge,
            signing::ed25519_public_key(seed),
            challenge.payload.issuer,
            challenge.payload.key_id,
            now,
            skew,
        ) is None,
{
}

} // verus!
