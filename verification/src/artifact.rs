//! Proof artifacts: one strict container for every registered backend.
//!
//! The public statement travels as JSON text inside the container. Turning that
//! text into values, and values into their compact text, is left to the
//! caller; the container accepts a statement only under its own compact text.

use vstd::prelude::*;

use crate::bytes;
use crate::canonical;
use crate::canonical::{
    domain_separated_digest, DecodeError, DecodeLimits, Digest, Encoder, Reader,
};
use crate::certificate;
use crate::certificate::ValidationManifest;
use crate::problem;
use crate::problem::{FinalizedProblem, ProblemModel};
use crate::protocol;
use crate::protocol::{
    ProofProtocol, SignedChallenge, SignedChallengeModel, MAX_CHALLENGE_BYTES,
    MAX_PUBLIC_EVALUATION_TERMS_LIMIT, MAX_SOLUTION_ELEMENTS_LIMIT,
};
use crate::statement;
use crate::statement::{
    FramingError, PublicStatement, ReferenceValidationBackend, StatementModel, ValidationBackend,
    ValidationError,
};

verus! {

/// The first eight bytes of every artifact, as one big-endian integer.
pub const MAGIC: u64 = 0x5353_5641_5254_0000;

pub const CONTAINER_VERSION: u16 = 1;

pub const FLAG_SIGNED_PROBLEM_CHALLENGE: u32 = 1;

pub const PAYLOAD_FRAME: u16 = 1;

pub const FINAL_FRAME: u16 = 0xffff;

pub const FRAME_VERSION: u16 = 1;

pub const ARTIFACT_DIGEST_DOMAIN: &'static str = "sparse-solve/proof-artifact/v1";

pub const MAX_PUBLIC_STATEMENT_BYTES: usize = 0x10_0000;

/// Container ceiling. Registered succinct backends apply their tighter decoders
/// before allocating protocol material; the direct oracle may carry the
/// complete solution.
pub const MAX_BACKEND_PAYLOAD_BYTES: usize = 0x2000_0000;

pub const MAX_SUCCINCT_PAYLOAD_BYTES: usize = 0x400_0000;

/// Maximum container size for a registered succinct backend.
pub const MAX_SUCCINCT_ARTIFACT_BYTES: usize = MAX_CHALLENGE_BYTES + MAX_PUBLIC_STATEMENT_BYTES
    + MAX_SUCCINCT_PAYLOAD_BYTES + 128;

pub const MAX_ARTIFACT_BYTES: usize = MAX_CHALLENGE_BYTES + MAX_PUBLIC_STATEMENT_BYTES
    + MAX_BACKEND_PAYLOAD_BYTES + 128;

/// What an admission policy lets an artifact ask for.
#[derive(Clone, Copy, Debug, PartialEq, Eq, Structural)]
pub struct ArtifactResourceLimits {
    pub maximum_solution_elements: u64,
    pub maximum_payload_bytes: usize,
    pub maximum_public_matrix_terms: u64,
    pub maximum_public_rhs_terms: u64,
}

impl ArtifactResourceLimits {
    pub fn new(
        maximum_solution_elements: u64,
        maximum_payload_bytes: usize,
        maximum_public_matrix_terms: u64,
        maximum_public_rhs_terms: u64,
    ) -> (limits: ArtifactResourceLimits)
        ensures
            limits == (ArtifactResourceLimits {
                maximum_solution_elements,
                maximum_payload_bytes,
                maximum_public_matrix_terms,
                maximum_public_rhs_terms,
            }),
    {
        ArtifactResourceLimits {
            maximum_solution_elements,
            maximum_payload_bytes,
            maximum_public_matrix_terms,
            maximum_public_rhs_terms,
        }
    }
}

/// Whether the container can apply the limits to an artifact of a length.
pub open spec fn admissible(limits: ArtifactResourceLimits, length: nat) -> bool {
    &&& 0 < limits.maximum_solution_elements <= MAX_SOLUTION_ELEMENTS_LIMIT
    &&& limits.maximum_payload_bytes <= MAX_BACKEND_PAYLOAD_BYTES
    &&& length <= MAX_ARTIFACT_BYTES
}

/// The refusal of bytes that end too early or run on.
pub open spec fn malformed(error: DecodeError) -> ValidationError {
    ValidationError::Framing { error: FramingError::Decode { error } }
}

/// What the fixed header of an artifact says: its protocol, and whether it
/// carries a signed challenge.
pub open spec fn header_outcome(input: Seq<u8>, allowed: Seq<ProofProtocol>) -> Result<
    (ProofProtocol, bool),
    ValidationError,
> {
    let protocol = protocol::protocol_of(bytes::be_value(input.subrange(10, 12)) as u16);
    let flags = bytes::be_value(input.subrange(12, 16));
    if input.len() < 8 {
        Err(malformed(DecodeError::UnexpectedEnd))
    } else if bytes::be_value(input.subrange(0, 8)) != MAGIC {
        Err(ValidationError::Framing { error: FramingError::BadMagic })
    } else if input.len() < 10 {
        Err(malformed(DecodeError::UnexpectedEnd))
    } else if bytes::be_value(input.subrange(8, 10)) != CONTAINER_VERSION {
        Err(ValidationError::UnsupportedVersion)
    } else if input.len() < 12 {
        Err(malformed(DecodeError::UnexpectedEnd))
    } else if protocol is None {
        Err(ValidationError::UnsupportedVersion)
    } else if !allowed.contains(protocol->0) {
        Err(ValidationError::ProtocolNotAllowed { protocol: protocol->0 })
    } else if input.len() < 16 {
        Err(malformed(DecodeError::UnexpectedEnd))
    } else if flags > FLAG_SIGNED_PROBLEM_CHALLENGE {
        Err(ValidationError::UnsupportedVersion)
    } else {
        Ok((protocol->0, flags == FLAG_SIGNED_PROBLEM_CHALLENGE))
    }
}

/// What the challenge frame of an artifact says.
pub open spec fn challenge_frame(frame: Seq<u8>, flagged: bool) -> Result<
    Option<SignedChallengeModel>,
    ValidationError,
> {
    if frame.len() > MAX_CHALLENGE_BYTES || (frame.len() == 0) == flagged {
        Err(ValidationError::Framing { error: FramingError::ChallengeFlagMismatch })
    } else if frame.len() == 0 {
        Ok(None)
    } else {
        match protocol::decode_challenge(frame) {
            Ok(challenge) => Ok(Some(challenge)),
            Err(error) => Err(ValidationError::Manifest { error }),
        }
    }
}

/// The frames of an artifact before its payload, and what follows them.
#[verifier::ext_equal]
pub struct EnvelopeModel {
    pub protocol: ProofProtocol,
    pub challenge: Option<SignedChallengeModel>,
    pub problem_json: Seq<u8>,
    pub manifest_json: Seq<u8>,
    pub rest: Seq<u8>,
}

/// What opening the two statement frames gives.
pub open spec fn statement_frames(
    protocol: ProofProtocol,
    challenge: Option<SignedChallengeModel>,
    input: Seq<u8>,
) -> Result<EnvelopeModel, ValidationError> {
    match canonical::field_outcome(input, MAX_ARTIFACT_BYTES) {
        Err(error) => Err(malformed(error)),
        Ok(problem_json) => {
            let second = input.skip(8 + problem_json.len() as int);
            match canonical::field_outcome(second, MAX_ARTIFACT_BYTES) {
                Err(error) => Err(malformed(error)),
                Ok(manifest_json) => if problem_json.len() + manifest_json.len()
                    > MAX_PUBLIC_STATEMENT_BYTES {
                    Err(ValidationError::ResourceLimit)
                } else {
                    Ok(
                        EnvelopeModel {
                            protocol,
                            challenge,
                            problem_json,
                            manifest_json,
                            rest: second.skip(8 + manifest_json.len() as int),
                        },
                    )
                },
            }
        },
    }
}

/// What opening an artifact gives.
pub open spec fn envelope_outcome(
    encoded: Seq<u8>,
    limits: ArtifactResourceLimits,
    allowed: Seq<ProofProtocol>,
) -> Result<EnvelopeModel, ValidationError> {
    if !admissible(limits, encoded.len()) {
        Err(ValidationError::ResourceLimit)
    } else {
        match header_outcome(encoded, allowed) {
            Err(error) => Err(error),
            Ok((protocol, flagged)) => match canonical::field_outcome(
                encoded.skip(16),
                MAX_ARTIFACT_BYTES,
            ) {
                Err(error) => Err(malformed(error)),
                Ok(frame) => match challenge_frame(frame, flagged) {
                    Err(error) => Err(error),
                    Ok(challenge) => statement_frames(
                        protocol,
                        challenge,
                        encoded.skip(24 + frame.len() as int),
                    ),
                },
            },
        }
    }
}

/// What the final frame of an artifact must be.
pub open spec fn final_frame_outcome(input: Seq<u8>) -> Result<(), ValidationError> {
    let missing = ValidationError::Framing { error: FramingError::MissingFinalFrame };
    if input.len() < 2 {
        Err(malformed(DecodeError::UnexpectedEnd))
    } else if bytes::be_value(input.subrange(0, 2)) != FINAL_FRAME {
        Err(missing)
    } else if input.len() < 4 {
        Err(malformed(DecodeError::UnexpectedEnd))
    } else if bytes::be_value(input.subrange(2, 4)) != FRAME_VERSION {
        Err(missing)
    } else if input.len() < 12 {
        Err(malformed(DecodeError::UnexpectedEnd))
    } else if bytes::be_value(input.subrange(4, 12)) != 0 {
        Err(missing)
    } else if input.len() > 12 {
        Err(malformed(DecodeError::TrailingBytes { remaining: (input.len() - 12) as usize }))
    } else {
        Ok(())
    }
}

/// What the payload frame and the final frame give.
pub open spec fn payload_outcome(input: Seq<u8>, maximum: usize) -> Result<
    Seq<u8>,
    ValidationError,
> {
    let length = bytes::be_value(input.subrange(4, 12));
    if input.len() < 2 {
        Err(malformed(DecodeError::UnexpectedEnd))
    } else if bytes::be_value(input.subrange(0, 2)) != PAYLOAD_FRAME {
        Err(ValidationError::UnsupportedVersion)
    } else if input.len() < 4 {
        Err(malformed(DecodeError::UnexpectedEnd))
    } else if bytes::be_value(input.subrange(2, 4)) != FRAME_VERSION {
        Err(ValidationError::UnsupportedVersion)
    } else if input.len() < 12 {
        Err(malformed(DecodeError::UnexpectedEnd))
    } else if length > maximum {
        Err(ValidationError::ResourceLimit)
    } else if input.len() - 12 < length {
        Err(malformed(DecodeError::UnexpectedEnd))
    } else {
        match final_frame_outcome(input.skip(12 + length as int)) {
            Err(error) => Err(error),
            Ok(_) => Ok(input.subrange(12, 12 + length as int)),
        }
    }
}

/// A public statement as decoded from JSON text, beside the compact text that
/// it serializes to.
#[derive(Debug)]
pub struct DecodedStatement {
    pub problem: FinalizedProblem,
    pub problem_json: Vec<u8>,
    pub manifest: ValidationManifest,
    pub manifest_json: Vec<u8>,
}

/// What a decoded statement says.
#[verifier::ext_equal]
pub struct DecodedModel {
    pub problem: ProblemModel,
    pub problem_json: Seq<u8>,
    pub manifest: ValidationManifest,
    pub manifest_json: Seq<u8>,
}

impl View for DecodedStatement {
    type V = DecodedModel;

    open spec fn view(&self) -> DecodedModel {
        DecodedModel {
            problem: self.problem@,
            problem_json: self.problem_json@,
            manifest: self.manifest,
            manifest_json: self.manifest_json@,
        }
    }
}

/// The view of an optional decoded statement.
pub open spec fn decoded_view(decoded: Option<DecodedStatement>) -> Option<DecodedModel> {
    match decoded {
        Some(found) => Some(found@),
        None => None,
    }
}

/// What an accepted artifact says.
#[verifier::ext_equal]
pub struct ArtifactModel {
    pub statement: StatementModel,
    pub payload: Seq<u8>,
    pub encoded: Seq<u8>,
}

/// What accepting an opened artifact under a decoded statement gives.
pub open spec fn accept_outcome(
    envelope: EnvelopeModel,
    encoded: Seq<u8>,
    decoded: DecodedModel,
    limits: ArtifactResourceLimits,
) -> Result<ArtifactModel, ValidationError> {
    if decoded.problem_json != envelope.problem_json || decoded.manifest_json
        != envelope.manifest_json {
        Err(ValidationError::NonCanonicalJson)
    } else if decoded.manifest.protocol != envelope.protocol {
        Err(ValidationError::ProtocolMismatch)
    } else if decoded.manifest.max_solution_elements > limits.maximum_solution_elements {
        Err(ValidationError::DimensionLimit)
    } else if decoded.manifest.max_public_matrix_terms > limits.maximum_public_matrix_terms
        || decoded.manifest.max_public_rhs_terms > limits.maximum_public_rhs_terms {
        Err(ValidationError::PublicEvaluationLimit)
    } else {
        match statement::statement_outcome(decoded.problem, decoded.manifest, envelope.challenge) {
            Err(error) => Err(error),
            Ok(stated) => match payload_outcome(envelope.rest, limits.maximum_payload_bytes) {
                Err(error) => Err(error),
                Ok(payload) => Ok(ArtifactModel { statement: stated, payload, encoded }),
            },
        }
    }
}

/// What parsing an artifact gives, when its statement frames decode as given,
/// or do not decode.
pub open spec fn artifact_outcome(
    encoded: Seq<u8>,
    decoded: Option<DecodedModel>,
    limits: ArtifactResourceLimits,
    allowed: Seq<ProofProtocol>,
) -> Result<ArtifactModel, ValidationError> {
    match envelope_outcome(encoded, limits, allowed) {
        Err(error) => Err(error),
        Ok(envelope) => match decoded {
            None => Err(ValidationError::Json),
            Some(found) => accept_outcome(envelope, encoded, found, limits),
        },
    }
}

/// The protocols that the container knows.
pub open spec fn every_protocol() -> Seq<ProofProtocol> {
    seq![
        ProofProtocol::DirectReferenceV1,
        ProofProtocol::WhirField192L2V4,
        ProofProtocol::FastBinary64UnitCircleV3,
    ]
}

/// Limits on elements and payload bytes alone.
pub open spec fn plain_limits(
    maximum_solution_elements: u64,
    maximum_payload_bytes: usize,
) -> ArtifactResourceLimits {
    ArtifactResourceLimits {
        maximum_solution_elements,
        maximum_payload_bytes,
        maximum_public_matrix_terms: MAX_PUBLIC_EVALUATION_TERMS_LIMIT,
        maximum_public_rhs_terms: MAX_PUBLIC_EVALUATION_TERMS_LIMIT,
    }
}

fn framing(error: DecodeError) -> (refusal: ValidationError)
    ensures
        refusal == malformed(error),
{
    ValidationError::Framing { error: FramingError::Decode { error } }
}

fn is_allowed(protocol: ProofProtocol, allowed: &[ProofProtocol]) -> (found: bool)
    ensures
        found == allowed@.contains(protocol),
{
    let mut index: usize = 0;
    while index < allowed.len()
        invariant
            index <= allowed@.len(),
            forall|i: int| 0 <= i < index ==> #[trigger] allowed@[i] != protocol,
        decreases allowed@.len() - index,
    {
        if allowed[index] == protocol {
            return true;
        }
        index = index + 1;
    }
    false
}

fn read_header(input: &mut Reader<'_>, allowed: &[ProofProtocol]) -> (result: Result<
    (ProofProtocol, bool),
    ValidationError,
>)
    requires
        old(input).wf(),
    ensures
        result == header_outcome(old(input).rest(), allowed@),
        result is Ok ==> final(input).wf() && final(input).rest() == old(input).rest().skip(16)
            && old(input).rest().len() >= 16 && final(input).field_limit() == old(
            input,
        ).field_limit(),
{
    let ghost start = input.rest();
    proof {
        assert(start.len() >= 8 ==> start.take(8) =~= start.subrange(0, 8));
        assert(start.len() >= 10 ==> start.skip(8).take(2) =~= start.subrange(8, 10));
        assert(start.len() >= 12 ==> start.skip(8).skip(2).take(2) =~= start.subrange(10, 12));
        assert(start.len() >= 16 ==> start.skip(8).skip(2).skip(2).take(4) =~= start.subrange(
            12,
            16,
        ));
        assert(start.len() >= 16 ==> start.skip(8).skip(2).skip(2).skip(4) =~= start.skip(16));
    }
    let magic: u64 = match input.read_u64() {
        Ok(value) => value,
        Err(error) => {
            return Err(framing(error));
        },
    };
    if magic != MAGIC {
        return Err(ValidationError::Framing { error: FramingError::BadMagic });
    }
    let version: u16 = match input.read_u16() {
        Ok(value) => value,
        Err(error) => {
            return Err(framing(error));
        },
    };
    if version != CONTAINER_VERSION {
        return Err(ValidationError::UnsupportedVersion);
    }
    let wire_id: u16 = match input.read_u16() {
        Ok(value) => value,
        Err(error) => {
            return Err(framing(error));
        },
    };
    let protocol = match ProofProtocol::from_wire_id(wire_id) {
        Some(protocol) => protocol,
        None => {
            return Err(ValidationError::UnsupportedVersion);
        },
    };
    if !is_allowed(protocol, allowed) {
        return Err(ValidationError::ProtocolNotAllowed { protocol });
    }
    let flags: u32 = match input.read_u32() {
        Ok(value) => value,
        Err(error) => {
            return Err(framing(error));
        },
    };
    if flags > FLAG_SIGNED_PROBLEM_CHALLENGE {
        return Err(ValidationError::UnsupportedVersion);
    }
    Ok((protocol, flags == FLAG_SIGNED_PROBLEM_CHALLENGE))
}

fn read_challenge_frame(frame: &[u8], flagged: bool) -> (result: Result<
    Option<SignedChallenge>,
    ValidationError,
>)
    ensures
        (match challenge_frame(frame@, flagged) {
            Ok(expected) => result matches Ok(found) && statement::challenge_view(found)
                == expected,
            Err(refused) => result matches Err(error) && error == refused,
        }),
{
    if frame.len() > MAX_CHALLENGE_BYTES || (frame.len() == 0) == flagged {
        return Err(ValidationError::Framing { error: FramingError::ChallengeFlagMismatch });
    }
    if frame.len() == 0 {
        return Ok(None);
    }
    match SignedChallenge::from_canonical_bytes(frame) {
        Ok(challenge) => Ok(Some(challenge)),
        Err(error) => Err(ValidationError::Manifest { error }),
    }
}

fn read_final_frame(input: &mut Reader<'_>) -> (result: Result<(), ValidationError>)
    requires
        old(input).wf(),
    ensures
        result == final_frame_outcome(old(input).rest()),
{
    let ghost start = input.rest();
    proof {
        assert(start.len() >= 2 ==> start.take(2) =~= start.subrange(0, 2));
        assert(start.len() >= 4 ==> start.skip(2).take(2) =~= start.subrange(2, 4));
        assert(start.len() >= 12 ==> start.skip(2).skip(2).take(8) =~= start.subrange(4, 12));
    }
    let kind: u16 = match input.read_u16() {
        Ok(value) => value,
        Err(error) => {
            return Err(framing(error));
        },
    };
    if kind != FINAL_FRAME {
        return Err(ValidationError::Framing { error: FramingError::MissingFinalFrame });
    }
    let version: u16 = match input.read_u16() {
        Ok(value) => value,
        Err(error) => {
            return Err(framing(error));
        },
    };
    if version != FRAME_VERSION {
        return Err(ValidationError::Framing { error: FramingError::MissingFinalFrame });
    }
    let length: u64 = match input.read_u64() {
        Ok(value) => value,
        Err(error) => {
            return Err(framing(error));
        },
    };
    if length != 0 {
        return Err(ValidationError::Framing { error: FramingError::MissingFinalFrame });
    }
    match input.finish() {
        Ok(_) => Ok(()),
        Err(error) => Err(framing(error)),
    }
}

fn read_payload<'a>(input: &mut Reader<'a>, maximum_payload_bytes: usize) -> (result: Result<
    &'a [u8],
    ValidationError,
>)
    requires
        old(input).wf(),
    ensures
        (match payload_outcome(old(input).rest(), maximum_payload_bytes) {
            Ok(expected) => result matches Ok(payload) && payload@ == expected,
            Err(refused) => result matches Err(error) && error == refused,
        }),
{
    let ghost start = input.rest();
    proof {
        assert(start.len() >= 2 ==> start.take(2) =~= start.subrange(0, 2));
        assert(start.len() >= 4 ==> start.skip(2).take(2) =~= start.subrange(2, 4));
        assert(start.len() >= 12 ==> start.skip(2).skip(2).take(8) =~= start.subrange(4, 12));
        assert(start.len() >= 12 ==> start.skip(2).skip(2).skip(8) =~= start.skip(12));
    }
    let kind: u16 = match input.read_u16() {
        Ok(value) => value,
        Err(error) => {
            return Err(framing(error));
        },
    };
    if kind != PAYLOAD_FRAME {
        return Err(ValidationError::UnsupportedVersion);
    }
    let version: u16 = match input.read_u16() {
        Ok(value) => value,
        Err(error) => {
            return Err(framing(error));
        },
    };
    if version != FRAME_VERSION {
        return Err(ValidationError::UnsupportedVersion);
    }
    let length: u64 = match input.read_u64() {
        Ok(value) => value,
        Err(error) => {
            return Err(framing(error));
        },
    };
    if length > maximum_payload_bytes as u64 {
        return Err(ValidationError::ResourceLimit);
    }
    let payload = match input.read_fixed_bytes(length as usize) {
        Ok(payload) => payload,
        Err(error) => {
            return Err(framing(error));
        },
    };
    proof {
        assert(start.skip(12).take(length as int) =~= start.subrange(12, 12 + length as int));
        assert(start.skip(12).skip(length as int) =~= start.skip(12 + length as int));
    }
    match read_final_frame(input) {
        Ok(_) => Ok(payload),
        Err(error) => Err(error),
    }
}

/// An artifact whose statement frames have not been decoded yet.
#[derive(Debug)]
pub struct ArtifactEnvelope<'a> {
    protocol: ProofProtocol,
    challenge: Option<SignedChallenge>,
    problem_json: &'a [u8],
    manifest_json: &'a [u8],
    input: Reader<'a>,
    encoded: &'a [u8],
    limits: ArtifactResourceLimits,
}

impl<'a> View for ArtifactEnvelope<'a> {
    type V = EnvelopeModel;

    closed spec fn view(&self) -> EnvelopeModel {
        EnvelopeModel {
            protocol: self.protocol,
            challenge: statement::challenge_view(self.challenge),
            problem_json: self.problem_json@,
            manifest_json: self.manifest_json@,
            rest: self.input.rest(),
        }
    }
}

impl<'a> ArtifactEnvelope<'a> {
    /// The bytes that were opened.
    pub closed spec fn opened(&self) -> Seq<u8> {
        self.encoded@
    }

    /// The limits under which they were opened.
    pub closed spec fn applied(&self) -> ArtifactResourceLimits {
        self.limits
    }

    /// The reader stands within the artifact.
    pub closed spec fn wf(&self) -> bool {
        self.input.wf()
    }

    /// Reads every frame before the payload.
    pub fn open(
        encoded: &'a [u8],
        limits: ArtifactResourceLimits,
        allowed_protocols: &[ProofProtocol],
    ) -> (result: Result<ArtifactEnvelope<'a>, ValidationError>)
        ensures
            problem::yields(result, envelope_outcome(encoded@, limits, allowed_protocols@)),
            result matches Ok(envelope) ==> envelope.wf() && envelope.opened() == encoded@
                && envelope.applied() == limits,
    {
        if limits.maximum_solution_elements == 0 || limits.maximum_solution_elements
            > MAX_SOLUTION_ELEMENTS_LIMIT || limits.maximum_payload_bytes
            > MAX_BACKEND_PAYLOAD_BYTES || encoded.len() > MAX_ARTIFACT_BYTES {
            return Err(ValidationError::ResourceLimit);
        }
        let bounds = DecodeLimits {
            max_input_bytes: MAX_ARTIFACT_BYTES,
            max_field_bytes: MAX_ARTIFACT_BYTES,
        };
        let mut input = match Reader::new(encoded, bounds) {
            Ok(reader) => reader,
            Err(error) => {
                return Err(framing(error));
            },
        };
        let (protocol, flagged) = match read_header(&mut input, allowed_protocols) {
            Ok(header) => header,
            Err(error) => {
                return Err(error);
            },
        };
        let frame = match input.read_bytes(MAX_ARTIFACT_BYTES) {
            Ok(bytes) => bytes,
            Err(error) => {
                return Err(framing(error));
            },
        };
        assert(encoded@.skip(16).skip(8 + frame@.len() as int) =~= encoded@.skip(
            24 + frame@.len() as int,
        ));
        let challenge = match read_challenge_frame(frame, flagged) {
            Ok(challenge) => challenge,
            Err(error) => {
                return Err(error);
            },
        };
        let problem_json = match input.read_bytes(MAX_ARTIFACT_BYTES) {
            Ok(bytes) => bytes,
            Err(error) => {
                return Err(framing(error));
            },
        };
        let manifest_json = match input.read_bytes(MAX_ARTIFACT_BYTES) {
            Ok(bytes) => bytes,
            Err(error) => {
                return Err(framing(error));
            },
        };
        if exceeds_statement_limit(problem_json, manifest_json) {
            return Err(ValidationError::ResourceLimit);
        }
        Ok(
            ArtifactEnvelope {
                protocol,
                challenge,
                problem_json,
                manifest_json,
                input,
                encoded,
                limits,
            },
        )
    }

    /// The problem as compact JSON text.
    pub fn problem_json(&self) -> (text: &'a [u8])
        ensures
            text@ == self@.problem_json,
    {
        self.problem_json
    }

    /// The validation manifest as compact JSON text.
    pub fn manifest_json(&self) -> (text: &'a [u8])
        ensures
            text@ == self@.manifest_json,
    {
        self.manifest_json
    }

    /// Accepts the artifact under its decoded statement.
    pub fn accept(self, decoded: DecodedStatement) -> (result: Result<
        ArtifactPrelude<'a>,
        ValidationError,
    >)
        requires
            self.wf(),
        ensures
            problem::yields(
                result,
                accept_outcome(self@, self.opened(), decoded@, self.applied()),
            ),
    {
        if !bytes::same_bytes(decoded.problem_json.as_slice(), self.problem_json)
            || !bytes::same_bytes(decoded.manifest_json.as_slice(), self.manifest_json) {
            return Err(ValidationError::NonCanonicalJson);
        }
        if decoded.manifest.protocol != self.protocol {
            return Err(ValidationError::ProtocolMismatch);
        }
        if decoded.manifest.max_solution_elements > self.limits.maximum_solution_elements {
            return Err(ValidationError::DimensionLimit);
        }
        if decoded.manifest.max_public_matrix_terms > self.limits.maximum_public_matrix_terms
            || decoded.manifest.max_public_rhs_terms > self.limits.maximum_public_rhs_terms {
            return Err(ValidationError::PublicEvaluationLimit);
        }
        let statement = match PublicStatement::new(
            decoded.problem,
            decoded.manifest,
            self.challenge,
        ) {
            Ok(statement) => statement,
            Err(error) => {
                return Err(error);
            },
        };
        let mut input = self.input;
        match read_payload(&mut input, self.limits.maximum_payload_bytes) {
            Ok(payload) => Ok(ArtifactPrelude { statement, payload, encoded: self.encoded }),
            Err(error) => Err(error),
        }
    }
}

/// Whether two statement frames are too long together.
fn exceeds_statement_limit(problem_json: &[u8], manifest_json: &[u8]) -> (exceeds: bool)
    ensures
        exceeds == (problem_json@.len() + manifest_json@.len() > MAX_PUBLIC_STATEMENT_BYTES),
{
    problem_json.len() > MAX_PUBLIC_STATEMENT_BYTES || manifest_json.len()
        > MAX_PUBLIC_STATEMENT_BYTES - problem_json.len()
}

/// Borrowed backend payload after strict common framing and statement parsing.
#[derive(Debug)]
pub struct ArtifactPrelude<'a> {
    statement: PublicStatement,
    payload: &'a [u8],
    encoded: &'a [u8],
}

impl<'a> View for ArtifactPrelude<'a> {
    type V = ArtifactModel;

    closed spec fn view(&self) -> ArtifactModel {
        ArtifactModel {
            statement: self.statement@,
            payload: self.payload@,
            encoded: self.encoded@,
        }
    }
}

/// What an artifact is, for logs and certificates.
#[derive(Clone, Copy, Debug, PartialEq, Eq)]
pub struct ArtifactSummary {
    pub protocol: ProofProtocol,
    pub problem_digest: Digest,
    pub validation_manifest_digest: Digest,
    pub proof_digest: Digest,
    pub artifact_bytes: usize,
    pub payload_bytes: usize,
    pub has_signed_problem_challenge: bool,
}

/// The digest of a complete artifact.
pub open spec fn artifact_digest(encoded: Seq<u8>) -> Seq<u8> {
    canonical::domain_digest(vstd::utf8::encode_utf8(ARTIFACT_DIGEST_DOMAIN@), encoded)
}

/// Whether a summary is that of an artifact.
pub open spec fn summarizes(summary: ArtifactSummary, artifact: ArtifactModel) -> bool {
    &&& summary.protocol == artifact.statement.manifest.protocol
    &&& summary.problem_digest@ == problem::problem_digest(artifact.statement.problem)
    &&& summary.validation_manifest_digest@ == certificate::manifest_digest(
        artifact.statement.manifest,
    )
    &&& summary.proof_digest@ == artifact_digest(artifact.encoded)
    &&& summary.artifact_bytes == artifact.encoded.len()
    &&& summary.payload_bytes == artifact.payload.len()
    &&& summary.has_signed_problem_challenge == (artifact.statement.challenge is Some)
}

impl<'a> ArtifactPrelude<'a> {
    /// Parses an artifact under the container's own limits. `decoded` is the
    /// statement in its frames, or nothing where they hold no statement.
    pub fn parse(encoded: &'a [u8], decoded: Option<DecodedStatement>) -> (result: Result<
        ArtifactPrelude<'a>,
        ValidationError,
    >)
        ensures
            problem::yields(
                result,
                artifact_outcome(
                    encoded@,
                    decoded_view(decoded),
                    plain_limits(MAX_SOLUTION_ELEMENTS_LIMIT, MAX_BACKEND_PAYLOAD_BYTES),
                    every_protocol(),
                ),
            ),
    {
        ArtifactPrelude::parse_with_limits(
            encoded,
            decoded,
            MAX_SOLUTION_ELEMENTS_LIMIT,
            MAX_BACKEND_PAYLOAD_BYTES,
        )
    }

    pub fn parse_with_limits(
        encoded: &'a [u8],
        decoded: Option<DecodedStatement>,
        maximum_solution_elements: u64,
        maximum_payload_bytes: usize,
    ) -> (result: Result<ArtifactPrelude<'a>, ValidationError>)
        ensures
            problem::yields(
                result,
                artifact_outcome(
                    encoded@,
                    decoded_view(decoded),
                    plain_limits(maximum_solution_elements, maximum_payload_bytes),
                    every_protocol(),
                ),
            ),
    {
        let limits = ArtifactResourceLimits::new(
            maximum_solution_elements,
            maximum_payload_bytes,
            MAX_PUBLIC_EVALUATION_TERMS_LIMIT,
            MAX_PUBLIC_EVALUATION_TERMS_LIMIT,
        );
        let mut allowed: Vec<ProofProtocol> = Vec::new();
        allowed.push(ProofProtocol::DirectReferenceV1);
        allowed.push(ProofProtocol::WhirField192L2V4);
        allowed.push(ProofProtocol::FastBinary64UnitCircleV3);
        assert(allowed@ =~= every_protocol());
        ArtifactPrelude::parse_with_admission_policy(encoded, decoded, limits, allowed.as_slice())
    }

    /// Parses an artifact under a deployment's limits and protocol allowlist.
    pub fn parse_with_admission_policy(
        encoded: &'a [u8],
        decoded: Option<DecodedStatement>,
        limits: ArtifactResourceLimits,
        allowed_protocols: &[ProofProtocol],
    ) -> (result: Result<ArtifactPrelude<'a>, ValidationError>)
        ensures
            problem::yields(
                result,
                artifact_outcome(encoded@, decoded_view(decoded), limits, allowed_protocols@),
            ),
    {
        let envelope = match ArtifactEnvelope::open(encoded, limits, allowed_protocols) {
            Ok(envelope) => envelope,
            Err(error) => {
                return Err(error);
            },
        };
        match decoded {
            Some(found) => envelope.accept(found),
            None => Err(ValidationError::Json),
        }
    }

    pub fn statement(&self) -> (statement: &PublicStatement)
        ensures
            statement@ == self@.statement,
    {
        &self.statement
    }

    pub fn payload(&self) -> (payload: &'a [u8])
        ensures
            payload@ == self@.payload,
    {
        self.payload
    }

    pub fn summary(&self) -> (summary: ArtifactSummary)
        ensures
            summarizes(summary, self@),
    {
        ArtifactSummary {
            protocol: self.statement.manifest().protocol,
            problem_digest: self.statement.problem_digest(),
            validation_manifest_digest: self.statement.manifest_digest(),
            proof_digest: domain_separated_digest(
                ARTIFACT_DIGEST_DOMAIN.as_bytes(),
                self.encoded,
            ),
            artifact_bytes: self.encoded.len(),
            payload_bytes: self.payload.len(),
            has_signed_problem_challenge: self.statement.challenge().is_some(),
        }
    }

    /// Hands the restricted statement and the payload to a succinct backend.
    /// Dispatch follows the already validated manifest.
    pub fn verify_with<B: ValidationBackend>(&self) -> (result: Result<
        B::VerifierReport,
        B::Error,
    >)
        requires
            self@.statement.manifest.protocol == B::PROTOCOL,
        ensures
            exists|restricted: statement::VerifierStatement<'_>, payload: &[u8]|
                restricted@ == statement::restricted(self@.statement) && payload@ == self@.payload
                    && #[trigger] call_ensures(B::verify, (&restricted, payload), result),
    {
        let restricted = self.statement.verifier_statement();
        B::verify(&restricted, self.payload)
    }

    /// Hands the complete statement and the payload to a non-succinct oracle.
    /// Keeping this separate from [`Self::verify_with`] prevents a succinct
    /// backend from silently growing a row-scanning path.
    pub fn verify_reference_with<B: ReferenceValidationBackend>(&self) -> (result: Result<
        B::VerifierReport,
        B::Error,
    >)
        requires
            self@.statement.manifest.protocol == B::PROTOCOL,
        ensures
            exists|complete: &PublicStatement, payload: &[u8]|
                complete@ == self@.statement && payload@ == self@.payload
                    && #[trigger] call_ensures(B::verify, (complete, payload), result),
    {
        B::verify(&self.statement, self.payload)
    }
}

/// The bytes of a challenge frame.
pub open spec fn challenge_frame_bytes(challenge: Option<SignedChallengeModel>) -> Seq<u8> {
    match challenge {
        Some(signed) => protocol::signed_challenge_bytes(signed),
        None => Seq::empty(),
    }
}

/// The fixed header of an artifact.
pub open spec fn header_bytes(protocol: ProofProtocol, flagged: bool) -> Seq<u8> {
    bytes::be_bytes(MAGIC as nat, 8) + bytes::be_bytes(CONTAINER_VERSION as nat, 2)
        + bytes::be_bytes(protocol.id() as nat, 2) + bytes::be_bytes(
        if flagged {
            1
        } else {
            0
        },
        4,
    )
}

/// The frames that close an artifact.
pub open spec fn payload_bytes(payload: Seq<u8>) -> Seq<u8> {
    bytes::be_bytes(PAYLOAD_FRAME as nat, 2) + bytes::be_bytes(FRAME_VERSION as nat, 2)
        + bytes::be_bytes(payload.len(), 8) + payload + bytes::be_bytes(FINAL_FRAME as nat, 2)
        + bytes::be_bytes(FRAME_VERSION as nat, 2) + bytes::be_bytes(0, 8)
}

/// The bytes of an artifact.
pub open spec fn artifact_bytes(
    protocol: ProofProtocol,
    challenge: Option<SignedChallengeModel>,
    problem_json: Seq<u8>,
    manifest_json: Seq<u8>,
    payload: Seq<u8>,
) -> Seq<u8> {
    header_bytes(protocol, challenge is Some) + canonical::framed(challenge_frame_bytes(challenge))
        + canonical::framed(problem_json) + canonical::framed(manifest_json) + payload_bytes(
        payload,
    )
}

fn write_header(output: &mut Encoder, protocol: ProofProtocol, flagged: bool)
    ensures
        final(output)@ == old(output)@ + header_bytes(protocol, flagged),
{
    let ghost start = output@;
    output.write_u64(MAGIC);
    output.write_u16(CONTAINER_VERSION);
    output.write_u16(protocol.wire_id());
    output.write_u32(
        if flagged {
            FLAG_SIGNED_PROBLEM_CHALLENGE
        } else {
            0
        },
    );
    assert(output@ =~= start + header_bytes(protocol, flagged));
}

fn write_payload(output: &mut Encoder, payload: &[u8])
    ensures
        final(output)@ == old(output)@ + payload_bytes(payload@),
{
    let ghost start = output@;
    output.write_u16(PAYLOAD_FRAME);
    output.write_u16(FRAME_VERSION);
    output.write_u64(payload.len() as u64);
    output.write_fixed_bytes(payload);
    output.write_u16(FINAL_FRAME);
    output.write_u16(FRAME_VERSION);
    output.write_u64(0);
    assert(output@ =~= start + payload_bytes(payload@));
}

/// Encodes a payload under a statement, whose problem and manifest are given as
/// compact JSON text.
pub fn encode_artifact(
    statement: &PublicStatement,
    problem_json: &[u8],
    manifest_json: &[u8],
    payload: &[u8],
) -> (result: Result<Vec<u8>, ValidationError>)
    ensures
        (if payload@.len() > MAX_BACKEND_PAYLOAD_BYTES || problem_json@.len() + manifest_json@.len()
            > MAX_PUBLIC_STATEMENT_BYTES {
            result matches Err(error) && error == ValidationError::ResourceLimit
        } else {
            result matches Ok(encoded) && encoded@ == artifact_bytes(
                statement@.manifest.protocol,
                statement@.challenge,
                problem_json@,
                manifest_json@,
                payload@,
            ) && encoded@.len() <= MAX_ARTIFACT_BYTES
        }),
{
    if payload.len() > MAX_BACKEND_PAYLOAD_BYTES {
        return Err(ValidationError::ResourceLimit);
    }
    let signed = statement.challenge();
    let challenge = match signed {
        Some(signed) => {
            proof {
                protocol::lemma_signed_challenge_is_sized(*signed);
                lemma_challenge_length(signed@);
            }
            signed.to_canonical_bytes()
        },
        None => Vec::new(),
    };
    if exceeds_statement_limit(problem_json, manifest_json) {
        return Err(ValidationError::ResourceLimit);
    }
    let protocol = statement.manifest().protocol;
    proof {
        assert(challenge@ =~= challenge_frame_bytes(statement@.challenge));
        lemma_artifact_length(
            protocol,
            statement@.challenge,
            problem_json@,
            manifest_json@,
            payload@,
        );
    }
    let mut output = Encoder::with_capacity(
        challenge.len() + problem_json.len() + manifest_json.len() + payload.len() + 96,
    );
    write_header(&mut output, protocol, signed.is_some());
    output.write_bytes(challenge.as_slice());
    output.write_bytes(problem_json);
    output.write_bytes(manifest_json);
    write_payload(&mut output, payload);
    assert(output@ =~= artifact_bytes(
        protocol,
        statement@.challenge,
        problem_json@,
        manifest_json@,
        payload@,
    ));
    Ok(output.into_bytes())
}

pub proof fn lemma_challenge_length(challenge: SignedChallengeModel)
    requires
        protocol::challenge_error(challenge.payload) is None,
        protocol::sized_challenge(challenge),
    ensures
        0 < protocol::signed_challenge_bytes(challenge).len() <= MAX_CHALLENGE_BYTES,
{
    let issuer = vstd::utf8::encode_utf8(challenge.payload.issuer);
    let key_id = vstd::utf8::encode_utf8(challenge.payload.key_id);
    bytes::lemma_be_bytes_len(1, 2);
    bytes::lemma_be_bytes_len(issuer.len(), 8);
    bytes::lemma_be_bytes_len(key_id.len(), 8);
    bytes::lemma_be_bytes_len(bytes::twos_complement_64(challenge.payload.issued_at), 8);
    bytes::lemma_be_bytes_len(bytes::twos_complement_64(challenge.payload.expires_at), 8);
}

pub proof fn lemma_artifact_length(
    protocol: ProofProtocol,
    challenge: Option<SignedChallengeModel>,
    problem_json: Seq<u8>,
    manifest_json: Seq<u8>,
    payload: Seq<u8>,
)
    ensures
        header_bytes(protocol, challenge is Some).len() == 16,
        payload_bytes(payload).len() == 24 + payload.len(),
        artifact_bytes(protocol, challenge, problem_json, manifest_json, payload).len() == 64
            + challenge_frame_bytes(challenge).len() + problem_json.len() + manifest_json.len()
            + payload.len(),
{
    bytes::lemma_be_bytes_len(MAGIC as nat, 8);
    bytes::lemma_be_bytes_len(1, 2);
    bytes::lemma_be_bytes_len(protocol.id() as nat, 2);
    bytes::lemma_be_bytes_len(0, 4);
    bytes::lemma_be_bytes_len(1, 4);
    bytes::lemma_be_bytes_len(challenge_frame_bytes(challenge).len(), 8);
    bytes::lemma_be_bytes_len(problem_json.len(), 8);
    bytes::lemma_be_bytes_len(manifest_json.len(), 8);
    bytes::lemma_be_bytes_len(payload.len(), 8);
    bytes::lemma_be_bytes_len(FINAL_FRAME as nat, 2);
    bytes::lemma_be_bytes_len(0, 8);
}

} // verus!
