//! What digests, derived seeds and signatures are taken of.
//!
//! Hashing itself is opaque. Each law names the bytes that reach the hash and
//! says that they determine everything that the digest stands for: two values
//! that differ anywhere reach the hash as different bytes.

use vstd::prelude::*;

use crate::artifact;
use crate::bytes;
use crate::canonical;
use crate::certificate;
use crate::certificate::{CertificateModel, SignedCertificateModel, ValidationManifest};
use crate::certificate_laws;
use crate::hashing;
use crate::opening_laws;
use crate::pcs;
use crate::pcs::ClaimsModel;
use crate::problem;
use crate::problem::{ProblemModel, TemplateModel};
use crate::problem_laws;
use crate::protocol;
use crate::protocol::{ChallengeModel, SignedChallengeModel};
use crate::randomness;
use crate::signing;
use crate::statement;
use crate::statement::StatementModel;

verus! {

/// Within one domain, equal digested bytes hold equal payloads.
proof fn lemma_one_domain(domain: Seq<u8>, first: Seq<u8>, second: Seq<u8>)
    requires
        canonical::framed(domain) + canonical::framed(first) == canonical::framed(domain)
            + canonical::framed(second),
    ensures
        first == second,
{
    let left = canonical::framed(domain) + canonical::framed(first);
    let right = canonical::framed(domain) + canonical::framed(second);
    let start = 8 + domain.len() as int;
    bytes::lemma_be_bytes_len(domain.len(), 8);
    bytes::lemma_be_bytes_len(first.len(), 8);
    bytes::lemma_be_bytes_len(second.len(), 8);
    assert(left.skip(start + 8) =~= first);
    assert(right.skip(start + 8) =~= second);
}

/// A text's bytes determine it.
proof fn lemma_text_bytes(first: Seq<char>, second: Seq<char>)
    requires
        vstd::utf8::encode_utf8(first) == vstd::utf8::encode_utf8(second),
    ensures
        first == second,
{
    vstd::utf8::encode_utf8_decode_utf8(first);
    vstd::utf8::encode_utf8_decode_utf8(second);
}

/// A text takes at most four bytes for each character.
proof fn lemma_text_length(text: Seq<char>)
    ensures
        vstd::utf8::encode_utf8(text).len() <= 4 * text.len(),
    decreases text.len(),
{
    if text.len() > 0 {
        lemma_text_length(text.drop_first());
    }
}

/// Digested bytes of two different domains differ.
proof fn lemma_two_domains(first: Seq<char>, first_payload: Seq<u8>, second: Seq<char>, second_payload:
    Seq<u8>)
    requires
        first != second,
        first.len() <= 100,
        second.len() <= 100,
    ensures
        digested(first, first_payload) != digested(second, second_payload),
{
    let first_bytes = vstd::utf8::encode_utf8(first);
    let second_bytes = vstd::utf8::encode_utf8(second);
    lemma_text_length(first);
    lemma_text_length(second);
    if digested(first, first_payload) == digested(second, second_payload) {
        canonical::framing_is_unambiguous(
            first_bytes,
            canonical::framed(first_payload),
            second_bytes,
            canonical::framed(second_payload),
        );
        lemma_text_bytes(first, second);
    }
}

/// The bytes that reach the hash for a domain and a payload.
spec fn digested(domain: Seq<char>, payload: Seq<u8>) -> Seq<u8> {
    canonical::framed(vstd::utf8::encode_utf8(domain)) + canonical::framed(payload)
}

/// A length and a payload behind a prefix of known width give back both parts.
proof fn lemma_delimited(
    first_prefix: Seq<u8>,
    first: Seq<u8>,
    second_prefix: Seq<u8>,
    second: Seq<u8>,
)
    requires
        first_prefix.len() == second_prefix.len(),
        first_prefix + bytes::le_bytes(first.len(), 8) + first == second_prefix + bytes::le_bytes(
            second.len(),
            8,
        ) + second,
    ensures
        first_prefix == second_prefix,
        first == second,
{
    let left = first_prefix + bytes::le_bytes(first.len(), 8) + first;
    let right = second_prefix + bytes::le_bytes(second.len(), 8) + second;
    let width = first_prefix.len() as int;
    bytes::lemma_be_bytes_len(first.len(), 8);
    bytes::lemma_be_bytes_len(second.len(), 8);
    assert(left.take(width) =~= first_prefix);
    assert(right.take(width) =~= second_prefix);
    assert(left.skip(width + 8) =~= first);
    assert(right.skip(width + 8) =~= second);
}

/// An instance seed is 32 bytes of key-derivation output over bytes that
/// determine the template digest and the whole challenge context.
pub proof fn instance_seeds_bind_template_and_context(
    first_digest: Seq<u8>,
    first_context: Seq<u8>,
    second_digest: Seq<u8>,
    second_context: Seq<u8>,
) -> (inputs: (Seq<u8>, Seq<u8>))
    requires
        first_digest.len() == 32,
        second_digest.len() == 32,
    ensures
        randomness::instance_seed_bytes(first_digest, first_context)
            == hashing::blake3_derived_bytes(
            "sparse-solve/problem-instance-seed/v1"@,
            inputs.0,
            0,
            32,
        ),
        randomness::instance_seed_bytes(second_digest, second_context)
            == hashing::blake3_derived_bytes(
            "sparse-solve/problem-instance-seed/v1"@,
            inputs.1,
            0,
            32,
        ),
        inputs.0 == inputs.1 ==> first_digest == second_digest && first_context == second_context,
{
    let first = first_digest + bytes::le_bytes(first_context.len(), 8) + first_context;
    let second = second_digest + bytes::le_bytes(second_context.len(), 8) + second_context;
    if first == second {
        lemma_delimited(first_digest, first_context, second_digest, second_context);
    }
    (first, second)
}

/// The seed of a stream is 32 bytes of key-derivation output over bytes that
/// determine the instance seed and the label: no two labels share a stream.
pub proof fn subseeds_bind_seed_and_label(
    first_seed: Seq<u8>,
    first_label: Seq<u8>,
    second_seed: Seq<u8>,
    second_label: Seq<u8>,
) -> (inputs: (Seq<u8>, Seq<u8>))
    requires
        first_seed.len() == 32,
        second_seed.len() == 32,
    ensures
        randomness::subseed_bytes(first_seed, first_label) == hashing::blake3_derived_bytes(
            "sparse-solve/problem-subseed/v1"@,
            inputs.0,
            0,
            32,
        ),
        randomness::subseed_bytes(second_seed, second_label) == hashing::blake3_derived_bytes(
            "sparse-solve/problem-subseed/v1"@,
            inputs.1,
            0,
            32,
        ),
        inputs.0 == inputs.1 ==> first_seed == second_seed && first_label == second_label,
{
    let first = first_seed + bytes::le_bytes(first_label.len(), 8) + first_label;
    let second = second_seed + bytes::le_bytes(second_label.len(), 8) + second_label;
    if first == second {
        lemma_delimited(first_seed, first_label, second_seed, second_label);
    }
    (first, second)
}

/// A digest is taken of bytes that determine its domain and its payload, so
/// that digests of different domains never share their input.
pub proof fn digests_bind_domain_and_payload(
    first_domain: Seq<u8>,
    first_payload: Seq<u8>,
    second_domain: Seq<u8>,
    second_payload: Seq<u8>,
) -> (inputs: (Seq<u8>, Seq<u8>))
    requires
        first_domain.len() <= u64::MAX,
        second_domain.len() <= u64::MAX,
    ensures
        canonical::domain_digest(first_domain, first_payload) == hashing::blake3_digest(inputs.0),
        canonical::domain_digest(second_domain, second_payload) == hashing::blake3_digest(inputs.1),
        inputs.0 == inputs.1 ==> first_domain == second_domain && first_payload == second_payload,
{
    let first = canonical::framed(first_domain) + canonical::framed(first_payload);
    let second = canonical::framed(second_domain) + canonical::framed(second_payload);
    if first == second {
        canonical::framing_is_unambiguous(
            first_domain,
            canonical::framed(first_payload),
            second_domain,
            canonical::framed(second_payload),
        );
        lemma_one_domain(first_domain, first_payload, second_payload);
    }
    (first, second)
}

/// A template digest is taken of bytes that determine the template: its
/// randomness policy, matrix, right-hand side and outputs.
pub proof fn template_digests_bind_templates(first: TemplateModel, second: TemplateModel) -> (inputs:
    (Seq<u8>, Seq<u8>))
    requires
        problem_laws::sized_template(first),
        problem_laws::sized_template(second),
    ensures
        problem::template_digest(first) == hashing::blake3_digest(inputs.0),
        problem::template_digest(second) == hashing::blake3_digest(inputs.1),
        inputs.0 == inputs.1 ==> first == second,
{
    let domain = vstd::utf8::encode_utf8(problem::TEMPLATE_DIGEST_DOMAIN@);
    let inputs = (
        canonical::framed(domain) + canonical::framed(problem::template_encoding(first)),
        canonical::framed(domain) + canonical::framed(problem::template_encoding(second)),
    );
    if inputs.0 == inputs.1 {
        lemma_one_domain(
            domain,
            problem::template_encoding(first),
            problem::template_encoding(second),
        );
        problem_laws::template_encodings_bind_templates(first, second);
    }
    inputs
}

/// A problem digest is taken of bytes that determine the problem: its
/// randomness record, matrix, right-hand side and outputs.
pub proof fn problem_digests_bind_problems(first: ProblemModel, second: ProblemModel) -> (inputs: (
    Seq<u8>,
    Seq<u8>,
))
    requires
        problem_laws::sized_problem(first),
        problem_laws::sized_problem(second),
    ensures
        problem::problem_digest(first) == hashing::blake3_digest(inputs.0),
        problem::problem_digest(second) == hashing::blake3_digest(inputs.1),
        inputs.0 == inputs.1 ==> first == second,
{
    let domain = vstd::utf8::encode_utf8(problem::PROBLEM_DIGEST_DOMAIN@);
    let inputs = (
        canonical::framed(domain) + canonical::framed(problem::problem_encoding(first)),
        canonical::framed(domain) + canonical::framed(problem::problem_encoding(second)),
    );
    if inputs.0 == inputs.1 {
        lemma_one_domain(
            domain,
            problem::problem_encoding(first),
            problem::problem_encoding(second),
        );
        problem_laws::problem_encodings_bind_problems(first, second);
    }
    inputs
}

/// The digest recorded for a challenge context is taken of bytes that determine
/// the whole context.
pub proof fn context_digests_bind_contexts(first: Seq<u8>, second: Seq<u8>) -> (inputs: (
    Seq<u8>,
    Seq<u8>,
))
    ensures
        randomness::context_digest_bytes(first) == hashing::blake3_digest(inputs.0),
        randomness::context_digest_bytes(second) == hashing::blake3_digest(inputs.1),
        inputs.0 == inputs.1 ==> first == second,
{
    let domain = vstd::utf8::encode_utf8(randomness::CHALLENGE_CONTEXT_DIGEST_DOMAIN@);
    let inputs = (
        canonical::framed(domain) + canonical::framed(first),
        canonical::framed(domain) + canonical::framed(second),
    );
    if inputs.0 == inputs.1 {
        lemma_one_domain(domain, first, second);
    }
    inputs
}

/// A challenge digest is taken of bytes that determine the payload and the
/// signature.
pub proof fn challenge_digests_bind_challenges(
    first: SignedChallengeModel,
    second: SignedChallengeModel,
) -> (inputs: (Seq<u8>, Seq<u8>))
    requires
        protocol::sized_challenge(first),
        protocol::sized_challenge(second),
        protocol::challenge_error(first.payload) is None,
        protocol::challenge_error(second.payload) is None,
    ensures
        protocol::challenge_digest(first) == hashing::blake3_digest(inputs.0),
        protocol::challenge_digest(second) == hashing::blake3_digest(inputs.1),
        inputs.0 == inputs.1 ==> first == second,
{
    let domain = vstd::utf8::encode_utf8(protocol::CHALLENGE_DIGEST_DOMAIN@);
    let inputs = (
        canonical::framed(domain) + canonical::framed(protocol::signed_challenge_bytes(first)),
        canonical::framed(domain) + canonical::framed(protocol::signed_challenge_bytes(second)),
    );
    if inputs.0 == inputs.1 {
        lemma_one_domain(
            domain,
            protocol::signed_challenge_bytes(first),
            protocol::signed_challenge_bytes(second),
        );
        protocol::canonical_challenges_read_back(first);
        protocol::canonical_challenges_read_back(second);
    }
    inputs
}

/// A manifest digest is taken of bytes that determine the manifest.
pub proof fn manifest_digests_bind_manifests(
    first: ValidationManifest,
    second: ValidationManifest,
) -> (inputs: (Seq<u8>, Seq<u8>))
    ensures
        certificate::manifest_digest(first) == hashing::blake3_digest(inputs.0),
        certificate::manifest_digest(second) == hashing::blake3_digest(inputs.1),
        inputs.0 == inputs.1 ==> first == second,
{
    let domain = vstd::utf8::encode_utf8(protocol::MANIFEST_DIGEST_DOMAIN@);
    let inputs = (
        canonical::framed(domain) + canonical::framed(certificate::manifest_encoding(first)),
        canonical::framed(domain) + canonical::framed(certificate::manifest_encoding(second)),
    );
    if inputs.0 == inputs.1 {
        lemma_one_domain(
            domain,
            certificate::manifest_encoding(first),
            certificate::manifest_encoding(second),
        );
        certificate::manifest_encoding_is_injective(first, second);
    }
    inputs
}

/// A certificate digest is taken of bytes that determine every field of the
/// certificate and its signature.
pub proof fn certificate_digests_bind_certificates(
    first: SignedCertificateModel,
    second: SignedCertificateModel,
) -> (inputs: (Seq<u8>, Seq<u8>))
    requires
        certificate_laws::sized_certificate(first.payload),
        certificate_laws::sized_certificate(second.payload),
        first.signature.len() == 64,
        second.signature.len() == 64,
        certificate::certificate_error(first.payload) is None,
        certificate::certificate_error(second.payload) is None,
    ensures
        certificate::certificate_digest(first) == hashing::blake3_digest(inputs.0),
        certificate::certificate_digest(second) == hashing::blake3_digest(inputs.1),
        inputs.0 == inputs.1 ==> first == second,
{
    let domain = vstd::utf8::encode_utf8(protocol::CERTIFICATE_DIGEST_DOMAIN@);
    let first_payload = certificate::certificate_encoding(first.payload);
    let second_payload = certificate::certificate_encoding(second.payload);
    let inputs = (
        canonical::framed(domain) + canonical::framed(first_payload + first.signature),
        canonical::framed(domain) + canonical::framed(second_payload + second.signature),
    );
    if inputs.0 == inputs.1 {
        lemma_one_domain(
            domain,
            first_payload + first.signature,
            second_payload + second.signature,
        );
        let first_bytes = first_payload + first.signature;
        let second_bytes = second_payload + second.signature;
        let length = first_bytes.len() - 64;
        assert(first_bytes.take(length) =~= first_payload);
        assert(second_bytes.take(length) =~= second_payload);
        assert(first_bytes.skip(length) =~= first.signature);
        assert(second_bytes.skip(length) =~= second.signature);
        certificate_laws::certificate_bytes_bind_every_field(first.payload, second.payload);
    }
    inputs
}

/// An artifact digest is taken of bytes that determine the whole artifact.
pub proof fn artifact_digests_bind_artifacts(first: Seq<u8>, second: Seq<u8>) -> (inputs: (
    Seq<u8>,
    Seq<u8>,
))
    ensures
        artifact::artifact_digest(first) == hashing::blake3_digest(inputs.0),
        artifact::artifact_digest(second) == hashing::blake3_digest(inputs.1),
        inputs.0 == inputs.1 ==> first == second,
{
    let domain = vstd::utf8::encode_utf8(artifact::ARTIFACT_DIGEST_DOMAIN@);
    let inputs = (
        canonical::framed(domain) + canonical::framed(first),
        canonical::framed(domain) + canonical::framed(second),
    );
    if inputs.0 == inputs.1 {
        lemma_one_domain(domain, first, second);
    }
    inputs
}

/// The digest that opens a transcript is taken of bytes that determine the
/// protocol, the problem digest and the manifest digest.
pub proof fn statement_digests_bind_protocol_problem_and_manifest(
    first: StatementModel,
    second: StatementModel,
) -> (inputs: (Seq<u8>, Seq<u8>))
    requires
        problem::problem_digest(first.problem).len() == 32,
        problem::problem_digest(second.problem).len() == 32,
    ensures
        statement::statement_digest(first) == hashing::blake3_digest(inputs.0),
        statement::statement_digest(second) == hashing::blake3_digest(inputs.1),
        inputs.0 == inputs.1 ==> {
            &&& first.manifest.protocol == second.manifest.protocol
            &&& problem::problem_digest(first.problem) == problem::problem_digest(second.problem)
            &&& certificate::manifest_digest(first.manifest) == certificate::manifest_digest(
                second.manifest,
            )
        },
{
    let domain = vstd::utf8::encode_utf8(statement::STATEMENT_DIGEST_DOMAIN@);
    let first_tag = bytes::be_bytes(first.manifest.protocol.id() as nat, 2);
    let second_tag = bytes::be_bytes(second.manifest.protocol.id() as nat, 2);
    let first_problem = problem::problem_digest(first.problem);
    let second_problem = problem::problem_digest(second.problem);
    let first_manifest = certificate::manifest_digest(first.manifest);
    let second_manifest = certificate::manifest_digest(second.manifest);
    let left = first_tag + first_problem + first_manifest;
    let right = second_tag + second_problem + second_manifest;
    let inputs = (
        canonical::framed(domain) + canonical::framed(left),
        canonical::framed(domain) + canonical::framed(right),
    );
    if inputs.0 == inputs.1 {
        lemma_one_domain(domain, left, right);
        bytes::lemma_byte_powers();
        bytes::lemma_be_bytes_len(first.manifest.protocol.id() as nat, 2);
        bytes::lemma_be_bytes_len(second.manifest.protocol.id() as nat, 2);
        bytes::lemma_be_round_trip(first.manifest.protocol.id() as nat, 2);
        bytes::lemma_be_round_trip(second.manifest.protocol.id() as nat, 2);
        assert(left.take(2) =~= first_tag);
        assert(right.take(2) =~= second_tag);
        assert(left.subrange(2, 34) =~= first_problem);
        assert(right.subrange(2, 34) =~= second_problem);
        assert(left.skip(34) =~= first_manifest);
        assert(right.skip(34) =~= second_manifest);
        protocol::wire_ids_are_unambiguous(
            first.manifest.protocol,
            first.manifest.protocol.id(),
        );
        protocol::wire_ids_are_unambiguous(
            second.manifest.protocol,
            second.manifest.protocol.id(),
        );
    }
    inputs
}

/// An opening digest is taken of bytes that determine the table shape, every
/// point and every claimed value.
pub proof fn opening_digests_bind_claims(
    first_shape: (usize, usize),
    first: ClaimsModel,
    second_shape: (usize, usize),
    second: ClaimsModel,
) -> (inputs: (Seq<u8>, Seq<u8>))
    requires
        opening_laws::canonical_claims(first),
        opening_laws::canonical_claims(second),
    ensures
        pcs::opening_digest(first_shape.0, first_shape.1, first) == hashing::blake3_digest(
            inputs.0,
        ),
        pcs::opening_digest(second_shape.0, second_shape.1, second) == hashing::blake3_digest(
            inputs.1,
        ),
        inputs.0 == inputs.1 ==> first_shape == second_shape && first == second,
{
    let inputs = (
        pcs::opening_bytes(first_shape.0, first_shape.1, first),
        pcs::opening_bytes(second_shape.0, second_shape.1, second),
    );
    if inputs.0 == inputs.1 {
        opening_laws::opening_bytes_bind_the_statement(first_shape, first, second_shape, second);
    }
    inputs
}

/// An accepted challenge was signed over bytes that determine its payload: one
/// signed message never stands for two payloads.
pub proof fn accepted_challenges_are_signed_as_a_whole(
    first: SignedChallengeModel,
    second: SignedChallengeModel,
    key: Seq<u8>,
    issuer: Seq<char>,
    key_id: Seq<char>,
    now: i64,
    skew: i64,
) -> (messages: (Seq<u8>, Seq<u8>))
    requires
        protocol::sized_challenge(first),
        protocol::sized_challenge(second),
        protocol::challenge_refusal(first, key, issuer, key_id, now, skew) is None,
        protocol::challenge_refusal(second, key, issuer, key_id, now, skew) is None,
    ensures
        signing::ed25519_accepts(key, messages.0, first.signature),
        signing::ed25519_accepts(key, messages.1, second.signature),
        messages.0 == messages.1 ==> first.payload == second.payload,
        first.payload.issuer == issuer,
        first.payload.key_id == key_id,
        first.payload.issued_at <= now + skew,
        0 <= now <= first.payload.expires_at,
        0 <= skew,
        first.payload.issued_at < first.payload.expires_at,
{
    let messages = (
        protocol::challenge_message(first.payload),
        protocol::challenge_message(second.payload),
    );
    if messages.0 == messages.1 {
        challenge_messages_bind_payloads(first.payload, second.payload);
    }
    messages
}

/// The message that a challenge's signature covers determines its payload.
pub proof fn challenge_messages_bind_payloads(first: ChallengeModel, second: ChallengeModel)
    requires
        protocol::challenge_error(first) is None,
        protocol::challenge_error(second) is None,
        first.entropy.len() == 32,
        first.template_digest.len() == 32,
        second.entropy.len() == 32,
        second.template_digest.len() == 32,
        protocol::challenge_message(first) == protocol::challenge_message(second),
    ensures
        first == second,
{
    lemma_one_domain(
        vstd::utf8::encode_utf8(protocol::CHALLENGE_SIGNATURE_DOMAIN@),
        protocol::challenge_encoding(first),
        protocol::challenge_encoding(second),
    );
    protocol::challenge_context_binds_the_payload(first, second);
}

/// An accepted certificate was signed over bytes that determine every field of
/// it: one signed message never stands for two certificates.
pub proof fn accepted_certificates_are_signed_as_a_whole(
    first: SignedCertificateModel,
    second: SignedCertificateModel,
    key: Seq<u8>,
    issuer: Seq<char>,
    key_id: Seq<char>,
) -> (messages: (Seq<u8>, Seq<u8>))
    requires
        certificate_laws::sized_certificate(first.payload),
        certificate_laws::sized_certificate(second.payload),
        certificate::certificate_refusal(first, key, issuer, key_id) is None,
        certificate::certificate_refusal(second, key, issuer, key_id) is None,
    ensures
        signing::ed25519_accepts(key, messages.0, first.signature),
        signing::ed25519_accepts(key, messages.1, second.signature),
        messages.0 == messages.1 ==> first.payload == second.payload,
        first.payload.issuer == issuer,
        first.payload.key_id == key_id,
{
    let messages = (
        certificate::certificate_message(first.payload),
        certificate::certificate_message(second.payload),
    );
    if messages.0 == messages.1 {
        certificate_messages_bind_every_field(first.payload, second.payload);
    }
    messages
}

/// The message that a certificate's signature covers determines every field.
pub proof fn certificate_messages_bind_every_field(
    first: CertificateModel,
    second: CertificateModel,
)
    requires
        certificate_laws::sized_certificate(first),
        certificate_laws::sized_certificate(second),
        certificate::certificate_error(first) is None,
        certificate::certificate_error(second) is None,
        certificate::certificate_message(first) == certificate::certificate_message(second),
    ensures
        first == second,
{
    lemma_one_domain(
        vstd::utf8::encode_utf8(protocol::CERTIFICATE_SIGNATURE_DOMAIN@),
        certificate::certificate_encoding(first),
        certificate::certificate_encoding(second),
    );
    certificate_laws::certificate_bytes_bind_every_field(first, second);
}

/// No signature of a challenge can be taken for one of a certificate: the two
/// never cover the same message.
pub proof fn challenges_and_certificates_are_signed_apart(
    challenge: ChallengeModel,
    signed: CertificateModel,
)
    ensures
        protocol::challenge_message(challenge) != certificate::certificate_message(signed),
{
    reveal_strlit("sparse-solve/challenge-signature/ed25519/v1");
    reveal_strlit("sparse-solve/certificate-signature/ed25519/v3");
    assert(protocol::CHALLENGE_SIGNATURE_DOMAIN@[14] == 'h');
    assert(protocol::CERTIFICATE_SIGNATURE_DOMAIN@[14] == 'e');
    lemma_two_domains(
        protocol::CHALLENGE_SIGNATURE_DOMAIN@,
        protocol::challenge_encoding(challenge),
        protocol::CERTIFICATE_SIGNATURE_DOMAIN@,
        certificate::certificate_encoding(signed),
    );
}

/// The domains under which digests are taken, each once.
proof fn lemma_domains_differ()
    ensures
        "sparse-solve/problem-template/v1"@.len() == 32,
        "sparse-solve/problem/v1"@.len() == 23,
        "sparse-solve/challenge-context/v1"@.len() == 33,
        "sparse-solve/challenge/v1"@.len() == 25,
        "sparse-solve/validation-manifest/v1"@.len() == 35,
        "sparse-solve/certificate/v3"@.len() == 27,
        "sparse-solve/proof-artifact/v1"@.len() == 30,
        "sparse-solve/public-statement/v1"@.len() == 32,
        "sparse-solve/problem-template/v1"@ != "sparse-solve/public-statement/v1"@,
{
    reveal_strlit("sparse-solve/problem-template/v1");
    reveal_strlit("sparse-solve/problem/v1");
    reveal_strlit("sparse-solve/challenge-context/v1");
    reveal_strlit("sparse-solve/challenge/v1");
    reveal_strlit("sparse-solve/validation-manifest/v1");
    reveal_strlit("sparse-solve/certificate/v3");
    reveal_strlit("sparse-solve/proof-artifact/v1");
    reveal_strlit("sparse-solve/public-statement/v1");
    assert("sparse-solve/problem-template/v1"@[14] == 'r');
    assert("sparse-solve/public-statement/v1"@[14] == 'u');
}

/// Digests of different kinds never share what is hashed: a template, a
/// problem, a context, a challenge, a manifest, a certificate, an artifact and a
/// public statement all reach the hash as different bytes.
pub proof fn kinds_of_digests_are_separated(
    template: TemplateModel,
    finalized: ProblemModel,
    context: Seq<u8>,
    challenge: SignedChallengeModel,
    manifest: ValidationManifest,
    certified: SignedCertificateModel,
    encoded: Seq<u8>,
    stated: StatementModel,
) -> (inputs: Seq<Seq<u8>>)
    ensures
        inputs.len() == 8,
        problem::template_digest(template) == hashing::blake3_digest(inputs[0]),
        problem::problem_digest(finalized) == hashing::blake3_digest(inputs[1]),
        randomness::context_digest_bytes(context) == hashing::blake3_digest(inputs[2]),
        protocol::challenge_digest(challenge) == hashing::blake3_digest(inputs[3]),
        certificate::manifest_digest(manifest) == hashing::blake3_digest(inputs[4]),
        certificate::certificate_digest(certified) == hashing::blake3_digest(inputs[5]),
        artifact::artifact_digest(encoded) == hashing::blake3_digest(inputs[6]),
        statement::statement_digest(stated) == hashing::blake3_digest(inputs[7]),
        forall|i: int, j: int| 0 <= i < j < 8 ==> #[trigger] inputs[i] != #[trigger] inputs[j],
{
    let domains = seq![
        "sparse-solve/problem-template/v1"@,
        "sparse-solve/problem/v1"@,
        "sparse-solve/challenge-context/v1"@,
        "sparse-solve/challenge/v1"@,
        "sparse-solve/validation-manifest/v1"@,
        "sparse-solve/certificate/v3"@,
        "sparse-solve/proof-artifact/v1"@,
        "sparse-solve/public-statement/v1"@,
    ];
    let payloads = seq![
        problem::template_encoding(template),
        problem::problem_encoding(finalized),
        context,
        protocol::signed_challenge_bytes(challenge),
        certificate::manifest_encoding(manifest),
        certificate::certificate_encoding(certified.payload) + certified.signature,
        encoded,
        bytes::be_bytes(stated.manifest.protocol.id() as nat, 2) + problem::problem_digest(
            stated.problem,
        ) + certificate::manifest_digest(stated.manifest),
    ];
    let inputs = Seq::new(8, |i: int| digested(domains[i], payloads[i]));
    lemma_domains_differ();
    assert forall|i: int, j: int| 0 <= i < j < 8 implies #[trigger] inputs[i]
        != #[trigger] inputs[j] by {
        assert(domains[i] != domains[j]);
        lemma_two_domains(domains[i], payloads[i], domains[j], payloads[j]);
    }
    assert(inputs[0] == digested(domains[0], payloads[0]));
    assert(inputs[1] == digested(domains[1], payloads[1]));
    assert(inputs[2] == digested(domains[2], payloads[2]));
    assert(inputs[3] == digested(domains[3], payloads[3]));
    assert(inputs[4] == digested(domains[4], payloads[4]));
    assert(inputs[5] == digested(domains[5], payloads[5]));
    assert(inputs[6] == digested(domains[6], payloads[6]));
    assert(inputs[7] == digested(domains[7], payloads[7]));
    inputs
}

} // verus!
