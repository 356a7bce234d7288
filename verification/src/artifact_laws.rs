//! Laws of the artifact container: what was encoded parses back, what was
//! accepted is canonical, and no artifact is the beginning of another.

use vstd::prelude::*;

use crate::artifact;
use crate::artifact::{
    ArtifactModel, ArtifactResourceLimits, DecodedModel, EnvelopeModel, CONTAINER_VERSION, FINAL_FRAME,
    FRAME_VERSION, MAGIC, MAX_ARTIFACT_BYTES, MAX_PUBLIC_STATEMENT_BYTES, PAYLOAD_FRAME,
};
use crate::bytes;
use crate::canonical;
use crate::canonical::DecodeError;
use crate::compile_laws;
use crate::protocol;
use crate::protocol::ProofProtocol;
use crate::statement;
use crate::statement::{FramingError, StatementModel, ValidationError};
use crate::statement_laws;

verus! {

proof fn lemma_header_reads_back(
    protocol: ProofProtocol,
    flagged: bool,
    rest: Seq<u8>,
    allowed: Seq<ProofProtocol>,
)
    requires
        allowed.contains(protocol),
    ensures
        artifact::header_outcome(artifact::header_bytes(protocol, flagged) + rest, allowed) == Ok::<
            (ProofProtocol, bool),
            ValidationError,
        >((protocol, flagged)),
        (artifact::header_bytes(protocol, flagged) + rest).skip(16) == rest,
        artifact::header_bytes(protocol, flagged).len() == 16,
{
    let flags: nat = if flagged {
        1
    } else {
        0
    };
    let input = artifact::header_bytes(protocol, flagged) + rest;
    bytes::lemma_byte_powers();
    bytes::lemma_be_bytes_len(MAGIC as nat, 8);
    bytes::lemma_be_bytes_len(CONTAINER_VERSION as nat, 2);
    bytes::lemma_be_bytes_len(protocol.id() as nat, 2);
    bytes::lemma_be_bytes_len(flags, 4);
    bytes::lemma_be_round_trip(MAGIC as nat, 8);
    bytes::lemma_be_round_trip(CONTAINER_VERSION as nat, 2);
    bytes::lemma_be_round_trip(protocol.id() as nat, 2);
    bytes::lemma_be_round_trip(flags, 4);
    assert(input.subrange(0, 8) =~= bytes::be_bytes(MAGIC as nat, 8));
    assert(input.subrange(8, 10) =~= bytes::be_bytes(CONTAINER_VERSION as nat, 2));
    assert(input.subrange(10, 12) =~= bytes::be_bytes(protocol.id() as nat, 2));
    assert(input.subrange(12, 16) =~= bytes::be_bytes(flags, 4));
    assert(input.skip(16) =~= rest);
    protocol::wire_ids_are_unambiguous(protocol, protocol.id());
}

proof fn lemma_header_was_written(
    input: Seq<u8>,
    allowed: Seq<ProofProtocol>,
    protocol: ProofProtocol,
    flagged: bool,
)
    requires
        artifact::header_outcome(input, allowed) == Ok::<(ProofProtocol, bool), ValidationError>(
            (protocol, flagged),
        ),
    ensures
        input == artifact::header_bytes(protocol, flagged) + input.skip(16),
        allowed.contains(protocol),
{
    bytes::lemma_byte_powers();
    bytes::lemma_be_bytes_of_value(input.subrange(0, 8));
    bytes::lemma_be_bytes_of_value(input.subrange(8, 10));
    bytes::lemma_be_bytes_of_value(input.subrange(10, 12));
    bytes::lemma_be_bytes_of_value(input.subrange(12, 16));
    bytes::lemma_be_value_bound(input.subrange(10, 12));
    let id = bytes::be_value(input.subrange(10, 12)) as u16;
    protocol::wire_ids_are_unambiguous(protocol, id);
    assert(artifact::header_bytes(protocol, flagged) =~= input.subrange(0, 8) + input.subrange(
        8,
        10,
    ) + input.subrange(10, 12) + input.subrange(12, 16));
    assert(input =~= artifact::header_bytes(protocol, flagged) + input.skip(16));
}

proof fn lemma_payload_reads_back(payload: Seq<u8>, maximum: usize)
    requires
        payload.len() <= maximum,
    ensures
        artifact::payload_outcome(artifact::payload_bytes(payload), maximum) == Ok::<
            Seq<u8>,
            ValidationError,
        >(payload),
{
    let input = artifact::payload_bytes(payload);
    let length = payload.len() as int;
    bytes::lemma_byte_powers();
    bytes::lemma_be_bytes_len(PAYLOAD_FRAME as nat, 2);
    bytes::lemma_be_bytes_len(FRAME_VERSION as nat, 2);
    bytes::lemma_be_bytes_len(FINAL_FRAME as nat, 2);
    bytes::lemma_be_bytes_len(payload.len(), 8);
    bytes::lemma_be_bytes_len(0, 8);
    bytes::lemma_be_round_trip(PAYLOAD_FRAME as nat, 2);
    bytes::lemma_be_round_trip(FRAME_VERSION as nat, 2);
    bytes::lemma_be_round_trip(FINAL_FRAME as nat, 2);
    bytes::lemma_be_round_trip(payload.len(), 8);
    bytes::lemma_be_round_trip(0, 8);
    assert(input.subrange(0, 2) =~= bytes::be_bytes(PAYLOAD_FRAME as nat, 2));
    assert(input.subrange(2, 4) =~= bytes::be_bytes(FRAME_VERSION as nat, 2));
    assert(input.subrange(4, 12) =~= bytes::be_bytes(payload.len(), 8));
    assert(input.subrange(12, 12 + length) =~= payload);
    let closing = input.skip(12 + length);
    assert(closing.len() == 12);
    assert(closing.subrange(0, 2) =~= bytes::be_bytes(FINAL_FRAME as nat, 2));
    assert(closing.subrange(2, 4) =~= bytes::be_bytes(FRAME_VERSION as nat, 2));
    assert(closing.subrange(4, 12) =~= bytes::be_bytes(0, 8));
}

proof fn lemma_payload_was_written(input: Seq<u8>, maximum: usize, payload: Seq<u8>)
    requires
        artifact::payload_outcome(input, maximum) == Ok::<Seq<u8>, ValidationError>(payload),
    ensures
        input == artifact::payload_bytes(payload),
        payload.len() <= maximum,
{
    bytes::lemma_byte_powers();
    bytes::lemma_be_bytes_of_value(input.subrange(0, 2));
    bytes::lemma_be_bytes_of_value(input.subrange(2, 4));
    bytes::lemma_be_bytes_of_value(input.subrange(4, 12));
    let closing = input.skip(12 + payload.len() as int);
    bytes::lemma_be_bytes_of_value(closing.subrange(0, 2));
    bytes::lemma_be_bytes_of_value(closing.subrange(2, 4));
    bytes::lemma_be_bytes_of_value(closing.subrange(4, 12));
    assert(closing =~= closing.subrange(0, 2) + closing.subrange(2, 4) + closing.subrange(4, 12));
    assert(input =~= input.subrange(0, 2) + input.subrange(2, 4) + input.subrange(4, 12) + payload
        + closing);
    assert(input =~= artifact::payload_bytes(payload));
}

/// Whether a challenge, where there is one, has fields of their sizes.
pub open spec fn sized(challenge: Option<protocol::SignedChallengeModel>) -> bool {
    challenge matches Some(signed) ==> protocol::sized_challenge(signed)
}

/// Five parts in a row, the first set apart.
proof fn lemma_parts(
    first: Seq<u8>,
    second: Seq<u8>,
    third: Seq<u8>,
    fourth: Seq<u8>,
    fifth: Seq<u8>,
)
    ensures
        first + second + third + fourth + fifth == first + (second + (third + (fourth + fifth))),
{
    assert(first + second + third + fourth + fifth =~= first + (second + (third + (fourth
        + fifth))));
}

proof fn lemma_regroup(first: Seq<u8>, second: Seq<u8>, third: Seq<u8>)
    ensures
        (first + second) + third == first + (second + third),
{
    assert((first + second) + third =~= first + (second + third));
}

proof fn lemma_skip_twice(sequence: Seq<u8>, first: int, second: int)
    requires
        0 <= first,
        0 <= second,
        first + second <= sequence.len(),
    ensures
        sequence.skip(first).skip(second) == sequence.skip(first + second),
{
    assert(sequence.skip(first).skip(second) =~= sequence.skip(first + second));
}

/// What follows the challenge frame of an artifact.
pub open spec fn statement_part(
    problem_json: Seq<u8>,
    manifest_json: Seq<u8>,
    payload: Seq<u8>,
) -> Seq<u8> {
    canonical::framed(problem_json) + (canonical::framed(manifest_json) + artifact::payload_bytes(
        payload,
    ))
}

proof fn lemma_valid_challenge(stated: StatementModel)
    requires
        statement::valid_statement(stated),
    ensures
        stated.challenge matches Some(signed) ==> protocol::challenge_error(signed.payload) is None,
{
}

proof fn lemma_challenge_frame_reads_back(challenge: Option<protocol::SignedChallengeModel>)
    requires
        sized(challenge),
        challenge matches Some(signed) ==> protocol::challenge_error(signed.payload) is None,
    ensures
        artifact::challenge_frame(
            artifact::challenge_frame_bytes(challenge),
            challenge is Some,
        ) == Ok::<Option<protocol::SignedChallengeModel>, ValidationError>(challenge),
        artifact::challenge_frame_bytes(challenge).len() <= protocol::MAX_CHALLENGE_BYTES,
{
    if let Some(signed) = challenge {
        artifact::lemma_challenge_length(signed);
        protocol::canonical_challenges_read_back(signed);
    }
}

proof fn lemma_challenge_frame_was_written(
    frame: Seq<u8>,
    flagged: bool,
    challenge: Option<protocol::SignedChallengeModel>,
)
    requires
        artifact::challenge_frame(frame, flagged) == Ok::<
            Option<protocol::SignedChallengeModel>,
            ValidationError,
        >(challenge),
    ensures
        frame == artifact::challenge_frame_bytes(challenge),
        flagged == (challenge is Some),
        sized(challenge),
{
    if let Some(signed) = challenge {
        protocol::challenge_bytes_are_canonical(frame, signed);
    } else {
        assert(frame =~= Seq::<u8>::empty());
    }
}

proof fn lemma_statement_frames_read_back(
    protocol: ProofProtocol,
    challenge: Option<protocol::SignedChallengeModel>,
    problem_json: Seq<u8>,
    manifest_json: Seq<u8>,
    payload: Seq<u8>,
)
    requires
        problem_json.len() + manifest_json.len() <= MAX_PUBLIC_STATEMENT_BYTES,
    ensures
        artifact::statement_frames(
            protocol,
            challenge,
            statement_part(problem_json, manifest_json, payload),
        ) == Ok::<EnvelopeModel, ValidationError>(
            EnvelopeModel {
                protocol,
                challenge,
                problem_json,
                manifest_json,
                rest: artifact::payload_bytes(payload),
            },
        ),
{
    let tail = artifact::payload_bytes(payload);
    let third = canonical::framed(manifest_json) + tail;
    canonical::written_field_reads_back(problem_json, third, MAX_ARTIFACT_BYTES);
    canonical::written_field_reads_back(manifest_json, tail, MAX_ARTIFACT_BYTES);
}

proof fn lemma_statement_frames_were_written(
    protocol: ProofProtocol,
    challenge: Option<protocol::SignedChallengeModel>,
    input: Seq<u8>,
    envelope: EnvelopeModel,
    maximum: usize,
    payload: Seq<u8>,
)
    requires
        artifact::statement_frames(protocol, challenge, input) == Ok::<
            EnvelopeModel,
            ValidationError,
        >(envelope),
        artifact::payload_outcome(envelope.rest, maximum) == Ok::<Seq<u8>, ValidationError>(
            payload,
        ),
    ensures
        input == statement_part(envelope.problem_json, envelope.manifest_json, payload),
        envelope.protocol == protocol,
        envelope.challenge == challenge,
        envelope.problem_json.len() + envelope.manifest_json.len() <= MAX_PUBLIC_STATEMENT_BYTES,
{
    canonical::read_field_was_written(input, MAX_ARTIFACT_BYTES, envelope.problem_json);
    let third = input.skip(8 + envelope.problem_json.len() as int);
    canonical::read_field_was_written(third, MAX_ARTIFACT_BYTES, envelope.manifest_json);
    lemma_payload_was_written(envelope.rest, maximum, payload);
}

proof fn lemma_envelope_steps(
    encoded: Seq<u8>,
    limits: ArtifactResourceLimits,
    allowed: Seq<ProofProtocol>,
    header: (ProofProtocol, bool),
    frame: Seq<u8>,
    challenge: Option<protocol::SignedChallengeModel>,
    opened: Result<EnvelopeModel, ValidationError>,
)
    requires
        artifact::admissible(limits, encoded.len()),
        artifact::header_outcome(encoded, allowed) == Ok::<(ProofProtocol, bool), ValidationError>(
            header,
        ),
        canonical::field_outcome(encoded.skip(16), MAX_ARTIFACT_BYTES) == Ok::<
            Seq<u8>,
            DecodeError,
        >(frame),
        artifact::challenge_frame(frame, header.1) == Ok::<
            Option<protocol::SignedChallengeModel>,
            ValidationError,
        >(challenge),
        artifact::statement_frames(
            header.0,
            challenge,
            encoded.skip(24 + frame.len() as int),
        ) == opened,
    ensures
        artifact::envelope_outcome(encoded, limits, allowed) == opened,
{
}

proof fn lemma_envelope_reads_back(
    protocol: ProofProtocol,
    challenge: Option<protocol::SignedChallengeModel>,
    problem_json: Seq<u8>,
    manifest_json: Seq<u8>,
    payload: Seq<u8>,
    limits: ArtifactResourceLimits,
    allowed: Seq<ProofProtocol>,
)
    requires
        sized(challenge),
        challenge matches Some(signed) ==> protocol::challenge_error(signed.payload) is None,
        problem_json.len() + manifest_json.len() <= MAX_PUBLIC_STATEMENT_BYTES,
        0 < limits.maximum_solution_elements <= protocol::MAX_SOLUTION_ELEMENTS_LIMIT,
        payload.len() <= limits.maximum_payload_bytes <= artifact::MAX_BACKEND_PAYLOAD_BYTES,
        allowed.contains(protocol),
    ensures
        artifact::envelope_outcome(
            artifact::artifact_bytes(protocol, challenge, problem_json, manifest_json, payload),
            limits,
            allowed,
        ) == Ok::<EnvelopeModel, ValidationError>(
            EnvelopeModel {
                protocol,
                challenge,
                problem_json,
                manifest_json,
                rest: artifact::payload_bytes(payload),
            },
        ),
{
    let flagged = challenge is Some;
    let frame = artifact::challenge_frame_bytes(challenge);
    let header = artifact::header_bytes(protocol, flagged);
    let second = statement_part(problem_json, manifest_json, payload);
    let first = canonical::framed(frame) + second;
    let encoded = artifact::artifact_bytes(
        protocol,
        challenge,
        problem_json,
        manifest_json,
        payload,
    );
    lemma_challenge_frame_reads_back(challenge);
    artifact::lemma_artifact_length(protocol, challenge, problem_json, manifest_json, payload);
    lemma_parts(
        header,
        canonical::framed(frame),
        canonical::framed(problem_json),
        canonical::framed(manifest_json),
        artifact::payload_bytes(payload),
    );
    lemma_header_reads_back(protocol, flagged, first, allowed);
    canonical::written_field_reads_back(frame, second, MAX_ARTIFACT_BYTES);
    lemma_skip_twice(encoded, 16, 8 + frame.len() as int);
    lemma_statement_frames_read_back(protocol, challenge, problem_json, manifest_json, payload);
    lemma_envelope_steps(
        encoded,
        limits,
        allowed,
        (protocol, flagged),
        frame,
        challenge,
        artifact::statement_frames(protocol, challenge, second),
    );
}

proof fn lemma_accept_steps(
    encoded: Seq<u8>,
    decoded: DecodedModel,
    limits: ArtifactResourceLimits,
    allowed: Seq<ProofProtocol>,
    envelope: EnvelopeModel,
    stated: StatementModel,
    payload: Seq<u8>,
)
    requires
        artifact::envelope_outcome(encoded, limits, allowed) == Ok::<
            EnvelopeModel,
            ValidationError,
        >(envelope),
        decoded.problem_json == envelope.problem_json,
        decoded.manifest_json == envelope.manifest_json,
        decoded.manifest.protocol == envelope.protocol,
        decoded.manifest.max_solution_elements <= limits.maximum_solution_elements,
        decoded.manifest.max_public_matrix_terms <= limits.maximum_public_matrix_terms,
        decoded.manifest.max_public_rhs_terms <= limits.maximum_public_rhs_terms,
        statement::statement_outcome(decoded.problem, decoded.manifest, envelope.challenge) == Ok::<
            StatementModel,
            ValidationError,
        >(stated),
        artifact::payload_outcome(envelope.rest, limits.maximum_payload_bytes) == Ok::<
            Seq<u8>,
            ValidationError,
        >(payload),
    ensures
        artifact::artifact_outcome(encoded, Some(decoded), limits, allowed) == Ok::<
            ArtifactModel,
            ValidationError,
        >(ArtifactModel { statement: stated, payload, encoded }),
{
}

/// An encoded artifact parses back: to its statement and its payload, under
/// every policy that admits them.
pub proof fn encoded_artifacts_parse_back(
    stated: StatementModel,
    problem_json: Seq<u8>,
    manifest_json: Seq<u8>,
    payload: Seq<u8>,
    limits: ArtifactResourceLimits,
    allowed: Seq<ProofProtocol>,
)
    requires
        statement::valid_statement(stated),
        sized(stated.challenge),
        problem_json.len() + manifest_json.len() <= MAX_PUBLIC_STATEMENT_BYTES,
        0 < limits.maximum_solution_elements <= protocol::MAX_SOLUTION_ELEMENTS_LIMIT,
        payload.len() <= limits.maximum_payload_bytes <= artifact::MAX_BACKEND_PAYLOAD_BYTES,
        stated.manifest.max_solution_elements <= limits.maximum_solution_elements,
        stated.manifest.max_public_matrix_terms <= limits.maximum_public_matrix_terms,
        stated.manifest.max_public_rhs_terms <= limits.maximum_public_rhs_terms,
        allowed.contains(stated.manifest.protocol),
    ensures
        ({
            let encoded = artifact::artifact_bytes(
                stated.manifest.protocol,
                stated.challenge,
                problem_json,
                manifest_json,
                payload,
            );
            let decoded = DecodedModel {
                problem: stated.problem,
                problem_json,
                manifest: stated.manifest,
                manifest_json,
            };
            artifact::artifact_outcome(encoded, Some(decoded), limits, allowed) == Ok::<
                ArtifactModel,
                ValidationError,
            >(ArtifactModel { statement: stated, payload, encoded })
        }),
{
    let encoded = artifact::artifact_bytes(
        stated.manifest.protocol,
        stated.challenge,
        problem_json,
        manifest_json,
        payload,
    );
    let decoded = DecodedModel {
        problem: stated.problem,
        problem_json,
        manifest: stated.manifest,
        manifest_json,
    };
    let envelope = EnvelopeModel {
        protocol: stated.manifest.protocol,
        challenge: stated.challenge,
        problem_json,
        manifest_json,
        rest: artifact::payload_bytes(payload),
    };
    lemma_valid_challenge(stated);
    lemma_envelope_reads_back(
        stated.manifest.protocol,
        stated.challenge,
        problem_json,
        manifest_json,
        payload,
        limits,
        allowed,
    );
    lemma_payload_reads_back(payload, limits.maximum_payload_bytes);
    lemma_accept_steps(encoded, decoded, limits, allowed, envelope, stated, payload);
}

proof fn lemma_accepted_statement(
    envelope: EnvelopeModel,
    encoded: Seq<u8>,
    decoded: DecodedModel,
    limits: ArtifactResourceLimits,
    accepted: ArtifactModel,
)
    requires
        artifact::accept_outcome(envelope, encoded, decoded, limits) == Ok::<
            ArtifactModel,
            ValidationError,
        >(accepted),
    ensures
        statement::valid_statement(accepted.statement),
        accepted.statement.problem == decoded.problem,
        accepted.statement.manifest == decoded.manifest,
        accepted.statement.challenge == envelope.challenge,
        accepted.encoded == encoded,
        decoded.manifest.protocol == envelope.protocol,
        decoded.problem_json == envelope.problem_json,
        decoded.manifest_json == envelope.manifest_json,
        artifact::payload_outcome(envelope.rest, limits.maximum_payload_bytes) == Ok::<
            Seq<u8>,
            ValidationError,
        >(accepted.payload),
{
}

proof fn lemma_envelope_was_written(
    encoded: Seq<u8>,
    limits: ArtifactResourceLimits,
    allowed: Seq<ProofProtocol>,
    envelope: EnvelopeModel,
    maximum: usize,
    payload: Seq<u8>,
)
    requires
        artifact::envelope_outcome(encoded, limits, allowed) == Ok::<
            EnvelopeModel,
            ValidationError,
        >(envelope),
        artifact::payload_outcome(envelope.rest, maximum) == Ok::<Seq<u8>, ValidationError>(
            payload,
        ),
    ensures
        encoded == artifact::artifact_bytes(
            envelope.protocol,
            envelope.challenge,
            envelope.problem_json,
            envelope.manifest_json,
            payload,
        ),
        sized(envelope.challenge),
        allowed.contains(envelope.protocol),
        envelope.problem_json.len() + envelope.manifest_json.len() <= MAX_PUBLIC_STATEMENT_BYTES,
{
    let (protocol, flagged) = artifact::header_outcome(encoded, allowed)->Ok_0;
    let first = encoded.skip(16);
    let frame = canonical::field_outcome(first, MAX_ARTIFACT_BYTES)->Ok_0;
    let challenge = artifact::challenge_frame(frame, flagged)->Ok_0;
    let second = encoded.skip(24 + frame.len() as int);
    lemma_header_was_written(encoded, allowed, protocol, flagged);
    canonical::read_field_was_written(first, MAX_ARTIFACT_BYTES, frame);
    bytes::lemma_be_bytes_len(frame.len(), 8);
    lemma_skip_twice(encoded, 16, 8 + frame.len() as int);
    lemma_challenge_frame_was_written(frame, flagged, challenge);
    lemma_statement_frames_were_written(protocol, challenge, second, envelope, maximum, payload);
    lemma_parts(
        artifact::header_bytes(protocol, flagged),
        canonical::framed(frame),
        canonical::framed(envelope.problem_json),
        canonical::framed(envelope.manifest_json),
        artifact::payload_bytes(payload),
    );
}

/// Accepted bytes are the one encoding of what they were accepted as.
pub proof fn accepted_artifacts_are_canonical(
    encoded: Seq<u8>,
    decoded: DecodedModel,
    limits: ArtifactResourceLimits,
    allowed: Seq<ProofProtocol>,
    accepted: ArtifactModel,
)
    requires
        artifact::artifact_outcome(encoded, Some(decoded), limits, allowed) == Ok::<
            ArtifactModel,
            ValidationError,
        >(accepted),
    ensures
        encoded == artifact::artifact_bytes(
            accepted.statement.manifest.protocol,
            accepted.statement.challenge,
            decoded.problem_json,
            decoded.manifest_json,
            accepted.payload,
        ),
        statement::valid_statement(accepted.statement),
        sized(accepted.statement.challenge),
        decoded.problem == accepted.statement.problem,
        decoded.manifest == accepted.statement.manifest,
        accepted.encoded == encoded,
        allowed.contains(accepted.statement.manifest.protocol),
        decoded.problem_json.len() + decoded.manifest_json.len() <= MAX_PUBLIC_STATEMENT_BYTES,
{
    let envelope = artifact::envelope_outcome(encoded, limits, allowed)->Ok_0;
    lemma_accepted_statement(envelope, encoded, decoded, limits, accepted);
    lemma_envelope_was_written(
        encoded,
        limits,
        allowed,
        envelope,
        limits.maximum_payload_bytes,
        accepted.payload,
    );
}

proof fn lemma_payload_is_prefix_free(payload: Seq<u8>, extra: Seq<u8>, other: Seq<u8>)
    requires
        artifact::payload_bytes(payload) + extra == artifact::payload_bytes(other),
        payload.len() <= u64::MAX,
        other.len() <= u64::MAX,
    ensures
        extra.len() == 0,
{
    let left = artifact::payload_bytes(payload) + extra;
    let right = artifact::payload_bytes(other);
    bytes::lemma_byte_powers();
    bytes::lemma_be_bytes_len(PAYLOAD_FRAME as nat, 2);
    bytes::lemma_be_bytes_len(FRAME_VERSION as nat, 2);
    bytes::lemma_be_bytes_len(FINAL_FRAME as nat, 2);
    bytes::lemma_be_bytes_len(0, 8);
    bytes::lemma_be_bytes_len(payload.len(), 8);
    bytes::lemma_be_bytes_len(other.len(), 8);
    bytes::lemma_be_round_trip(payload.len(), 8);
    bytes::lemma_be_round_trip(other.len(), 8);
    assert(left.subrange(4, 12) =~= bytes::be_bytes(payload.len(), 8));
    assert(right.subrange(4, 12) =~= bytes::be_bytes(other.len(), 8));
    assert(left.subrange(4, 12) == right.subrange(4, 12));
    assert(left.len() == 24 + payload.len() + extra.len());
    assert(right.len() == 24 + other.len());
}

/// The encoding of an artifact under the text of its statement frames.
spec fn encoding_of(accepted: ArtifactModel, json: (Seq<u8>, Seq<u8>)) -> Seq<u8> {
    artifact::artifact_bytes(
        accepted.statement.manifest.protocol,
        accepted.statement.challenge,
        json.0,
        json.1,
        accepted.payload,
    )
}

proof fn lemma_same_rest(
    first: Seq<u8>,
    first_rest: Seq<u8>,
    second: Seq<u8>,
    second_rest: Seq<u8>,
)
    requires
        first + first_rest == second + second_rest,
        first.len() == second.len(),
    ensures
        first_rest == second_rest,
{
    assert((first + first_rest).skip(first.len() as int) =~= first_rest);
    assert((second + second_rest).skip(second.len() as int) =~= second_rest);
}

proof fn lemma_accepted_length(
    encoded: Seq<u8>,
    limits: ArtifactResourceLimits,
    allowed: Seq<ProofProtocol>,
)
    requires
        artifact::envelope_outcome(encoded, limits, allowed) is Ok,
    ensures
        encoded.len() <= MAX_ARTIFACT_BYTES,
{
}

proof fn lemma_encoding_is_prefix_free(
    first: ArtifactModel,
    first_json: (Seq<u8>, Seq<u8>),
    second: ArtifactModel,
    second_json: (Seq<u8>, Seq<u8>),
    extra: Seq<u8>,
)
    requires
        encoding_of(first, first_json) + extra == encoding_of(second, second_json),
        encoding_of(second, second_json).len() <= MAX_ARTIFACT_BYTES,
    ensures
        extra.len() == 0,
{
    let frame = artifact::challenge_frame_bytes(first.statement.challenge);
    let other_frame = artifact::challenge_frame_bytes(second.statement.challenge);
    let header = artifact::header_bytes(
        first.statement.manifest.protocol,
        first.statement.challenge is Some,
    );
    let other_header = artifact::header_bytes(
        second.statement.manifest.protocol,
        second.statement.challenge is Some,
    );
    let tail = artifact::payload_bytes(first.payload);
    let other_tail = artifact::payload_bytes(second.payload);
    artifact::lemma_artifact_length(
        first.statement.manifest.protocol,
        first.statement.challenge,
        first_json.0,
        first_json.1,
        first.payload,
    );
    artifact::lemma_artifact_length(
        second.statement.manifest.protocol,
        second.statement.challenge,
        second_json.0,
        second_json.1,
        second.payload,
    );
    let third = canonical::framed(first_json.1) + tail;
    let other_third = canonical::framed(second_json.1) + other_tail;
    let after = canonical::framed(first_json.0) + third;
    let other_after = canonical::framed(second_json.0) + other_third;
    lemma_parts(
        header,
        canonical::framed(frame),
        canonical::framed(first_json.0),
        canonical::framed(first_json.1),
        tail,
    );
    lemma_parts(
        other_header,
        canonical::framed(other_frame),
        canonical::framed(second_json.0),
        canonical::framed(second_json.1),
        other_tail,
    );
    lemma_regroup(header, canonical::framed(frame) + after, extra);
    lemma_same_rest(
        header,
        (canonical::framed(frame) + after) + extra,
        other_header,
        canonical::framed(other_frame) + other_after,
    );
    lemma_regroup(canonical::framed(frame), after, extra);
    canonical::framing_is_unambiguous(frame, after + extra, other_frame, other_after);
    lemma_regroup(canonical::framed(first_json.0), third, extra);
    canonical::framing_is_unambiguous(
        first_json.0,
        third + extra,
        second_json.0,
        other_third,
    );
    lemma_regroup(canonical::framed(first_json.1), tail, extra);
    canonical::framing_is_unambiguous(first_json.1, tail + extra, second_json.1, other_tail);
    lemma_payload_is_prefix_free(first.payload, extra, second.payload);
}

/// No accepted artifact is the beginning of another: truncating one, or adding
/// bytes behind one, gives bytes that no decoding makes acceptable.
pub proof fn artifacts_are_prefix_free(
    encoded: Seq<u8>,
    extra: Seq<u8>,
    decoded: DecodedModel,
    extended: DecodedModel,
    limits: ArtifactResourceLimits,
    allowed: Seq<ProofProtocol>,
)
    requires
        artifact::artifact_outcome(encoded, Some(decoded), limits, allowed) is Ok,
        artifact::artifact_outcome(encoded + extra, Some(extended), limits, allowed) is Ok,
    ensures
        extra.len() == 0,
{
    let short = artifact::artifact_outcome(encoded, Some(decoded), limits, allowed)->Ok_0;
    let long = artifact::artifact_outcome(encoded + extra, Some(extended), limits, allowed)->Ok_0;
    accepted_artifacts_are_canonical(encoded, decoded, limits, allowed, short);
    accepted_artifacts_are_canonical(encoded + extra, extended, limits, allowed, long);
    lemma_accepted_length(encoded + extra, limits, allowed);
    lemma_encoding_is_prefix_free(
        short,
        (decoded.problem_json, decoded.manifest_json),
        long,
        (extended.problem_json, extended.manifest_json),
        extra,
    );
}

/// An accepted artifact keeps every limit that it was read under.
pub proof fn accepted_artifacts_keep_the_limits(
    encoded: Seq<u8>,
    decoded: DecodedModel,
    limits: ArtifactResourceLimits,
    allowed: Seq<ProofProtocol>,
    accepted: ArtifactModel,
)
    requires
        artifact::artifact_outcome(encoded, Some(decoded), limits, allowed) == Ok::<
            ArtifactModel,
            ValidationError,
        >(accepted),
    ensures
        encoded.len() <= 2048 + 0x10_0000 + 0x2000_0000 + 128,
        decoded.problem_json.len() + decoded.manifest_json.len() <= 0x10_0000,
        artifact::challenge_frame_bytes(accepted.statement.challenge).len() <= 2048,
        accepted.payload.len() <= limits.maximum_payload_bytes <= 0x2000_0000,
        0 < limits.maximum_solution_elements <= 0x4000_0000,
        accepted.statement.manifest.max_solution_elements <= limits.maximum_solution_elements,
        accepted.statement.manifest.max_public_matrix_terms <= limits.maximum_public_matrix_terms,
        accepted.statement.manifest.max_public_rhs_terms <= limits.maximum_public_rhs_terms,
        accepted.statement.generated.matrix.dimension()
            <= accepted.statement.manifest.max_solution_elements,
        statement::matrix_terms(accepted.statement.generated)
            <= accepted.statement.manifest.max_public_matrix_terms,
        statement::rhs_terms(accepted.statement.generated)
            <= accepted.statement.manifest.max_public_rhs_terms,
{
    accepted_artifacts_are_canonical(encoded, decoded, limits, allowed, accepted);
    if let Some(signed) = accepted.statement.challenge {
        artifact::lemma_challenge_length(signed);
    }
    statement_laws::statements_are_admitted_as_given(
        accepted.statement.problem,
        accepted.statement.manifest,
        accepted.statement.challenge,
    );
    compile_laws::compiled_problems_keep_their_identity(
        accepted.statement.problem,
        accepted.statement.generated,
    );
}

/// Plain parsing sets no limit on public terms beyond the general one, and
/// allows every protocol.
pub proof fn plain_parsing_allows_every_protocol(
    protocol: ProofProtocol,
    maximum_solution_elements: u64,
    maximum_payload_bytes: usize,
)
    ensures
        artifact::every_protocol().contains(protocol),
        ({
            let limits = artifact::plain_limits(maximum_solution_elements, maximum_payload_bytes);
            &&& limits.maximum_solution_elements == maximum_solution_elements
            &&& limits.maximum_payload_bytes == maximum_payload_bytes
            &&& limits.maximum_public_matrix_terms == 0x10_0000
            &&& limits.maximum_public_rhs_terms == 0x10_0000
        }),
{
    let every = artifact::every_protocol();
    assert(every[0] == ProofProtocol::DirectReferenceV1);
    assert(every[1] == ProofProtocol::WhirField192L2V4);
    assert(every[2] == ProofProtocol::FastBinary64UnitCircleV3);
}

/// Bytes without the artifact's magic number are refused as such.
pub proof fn foreign_headers_are_refused(foreign: Seq<u8>, allowed: Seq<ProofProtocol>)
    requires
        foreign.len() >= 8,
        bytes::be_value(foreign.take(8)) != 0x5353_5641_5254_0000,
    ensures
        artifact::header_outcome(foreign, allowed) == Err::<
            (ProofProtocol, bool),
            ValidationError,
        >(ValidationError::Framing { error: FramingError::BadMagic }),
{
    assert(foreign.subrange(0, 8) =~= foreign.take(8));
}

/// A header is read back where its protocol is allowed, and refused by the
/// protocol's name where it is not, whatever follows.
pub proof fn protocols_are_refused_by_name(
    protocol: ProofProtocol,
    flagged: bool,
    rest: Seq<u8>,
    allowed: Seq<ProofProtocol>,
)
    ensures
        artifact::header_outcome(artifact::header_bytes(protocol, flagged) + rest, allowed) == (
        if allowed.contains(protocol) {
            Ok::<(ProofProtocol, bool), ValidationError>((protocol, flagged))
        } else {
            Err(ValidationError::ProtocolNotAllowed { protocol })
        }),
{
    let input = artifact::header_bytes(protocol, flagged) + rest;
    if allowed.contains(protocol) {
        lemma_header_reads_back(protocol, flagged, rest, allowed);
    } else {
        bytes::lemma_byte_powers();
        bytes::lemma_be_bytes_len(MAGIC as nat, 8);
        bytes::lemma_be_bytes_len(CONTAINER_VERSION as nat, 2);
        bytes::lemma_be_bytes_len(protocol.id() as nat, 2);
        bytes::lemma_be_round_trip(MAGIC as nat, 8);
        bytes::lemma_be_round_trip(CONTAINER_VERSION as nat, 2);
        bytes::lemma_be_round_trip(protocol.id() as nat, 2);
        assert(input.subrange(0, 8) =~= bytes::be_bytes(MAGIC as nat, 8));
        assert(input.subrange(8, 10) =~= bytes::be_bytes(CONTAINER_VERSION as nat, 2));
        assert(input.subrange(10, 12) =~= bytes::be_bytes(protocol.id() as nat, 2));
        protocol::wire_ids_are_unambiguous(protocol, protocol.id());
    }
}

} // verus!
