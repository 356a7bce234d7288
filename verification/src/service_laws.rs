//! Laws of hosted validation: what a service issues it later admits, and what
//! it certifies it has admitted.

use vstd::prelude::*;

use crate::artifact;
use crate::artifact::{ArtifactModel, DecodedModel, EnvelopeModel};
use crate::artifact_laws;
use crate::certificate;
use crate::certificate::SignedCertificateModel;
use crate::digest_laws;
use crate::problem;
use crate::problem::{ProblemError, ProblemModel, TemplateModel};
use crate::protocol;
use crate::service;
use crate::service::{
    BackendError, BackendVerifierReport, ServiceError, ServiceModel, SubmissionModel,
    ValidationCancellation,
};
use crate::signing;
use crate::statement;
use crate::statement::{StatementModel, ValidationError};
use crate::statement_laws;
use crate::terms;

verus! {

/// Whether a time lies in the window in which a service accepts a challenge.
pub open spec fn in_window(service: ServiceModel, issued_at: i64, started_at: i64) -> bool {
    &&& 0 <= started_at
    &&& issued_at <= started_at + service.config.skew
    &&& started_at <= issued_at + service.config.lifetime
}

/// Whether a service's key accepts the signature of a challenge.
pub open spec fn properly_signed(
    service: ServiceModel,
    challenge: protocol::SignedChallengeModel,
) -> bool {
    signing::ed25519_accepts(
        signing::ed25519_public_key(service.seed),
        protocol::challenge_message(challenge.payload),
        challenge.signature,
    )
}

/// A challenge that a service issued is one it accepts: within its window, it
/// verifies and has the configured lifetime.
pub proof fn issued_challenges_are_accepted(
    service: ServiceModel,
    template: TemplateModel,
    entropy: Seq<u8>,
    now: i64,
    started_at: i64,
    parsed: ArtifactModel,
)
    requires
        service.config.skew >= 0,
        service::issue_error(service, template, entropy, now) is None,
        properly_signed(service, service::issued_challenge(service, template, entropy, now)),
        parsed.statement.challenge == Some(
            service::issued_challenge(service, template, entropy, now),
        ),
        in_window(service, now, started_at),
    ensures
        service::provenance_error(service, parsed, started_at) is None,
{
}

/// The canonical bytes of an issued challenge finalize its template into a
/// problem whose randomness that challenge explains.
pub proof fn issued_challenges_explain_their_problem(
    service: ServiceModel,
    template: TemplateModel,
    entropy: Seq<u8>,
    now: i64,
)
    requires
        service::issue_error(service, template, entropy, now) is None,
        entropy.len() == 32,
        problem::template_digest(template).len() == 32,
    ensures
        ({
            let challenge = service::issued_challenge(service, template, entropy, now);
            let context = protocol::challenge_encoding(challenge.payload);
            &&& problem::finalized(template, context) is Ok
            &&& statement::consistent_challenge(
                problem::finalized(template, context)->Ok_0,
                Some(challenge),
            )
        }),
{
    let payload = service::issued_payload(service, template, entropy, now);
    let signature = Seq::new(64, |i: int| 0u8);
    let sized = protocol::SignedChallengeModel { payload, signature };
    artifact::lemma_challenge_length(sized);
    problem::finalization_is_consistent(template, protocol::challenge_encoding(payload));
}

proof fn lemma_admission_steps(
    service: ServiceModel,
    envelope: EnvelopeModel,
    proof_bytes: Seq<u8>,
    decoded: DecodedModel,
    started_at: i64,
    parsed: ArtifactModel,
    report: BackendVerifierReport,
    polls: ValidationCancellation,
)
    requires
        !polls.before_parsing && !polls.after_parsing && !polls.before_verification
            && !polls.after_verification,
        artifact::envelope_outcome(
            proof_bytes,
            service::admission_limits(service),
            service.config.allowed,
        ) == Ok::<EnvelopeModel, ValidationError>(envelope),
        artifact::accept_outcome(
            envelope,
            proof_bytes,
            decoded,
            service::admission_limits(service),
        ) == Ok::<ArtifactModel, ValidationError>(parsed),
        service::provenance_error(service, parsed, started_at) is None,
    ensures
        service::submission_outcome(
            service,
            proof_bytes,
            Some(decoded),
            started_at,
            Ok(report),
            polls,
        ) == Ok::<SubmissionModel, ServiceError>(
            SubmissionModel { artifact: parsed, report, started_at },
        ),
{
}

/// The hosted flow goes through: a statement over an issued challenge, encoded
/// within the service's policy and submitted within the challenge's window, is
/// admitted, and what its backend reports is what the service records.
pub proof fn hosted_submissions_are_admitted(
    service: ServiceModel,
    template: TemplateModel,
    entropy: Seq<u8>,
    now: i64,
    stated: StatementModel,
    problem_json: Seq<u8>,
    manifest_json: Seq<u8>,
    payload: Seq<u8>,
    started_at: i64,
    report: BackendVerifierReport,
)
    requires
        service.config.skew >= 0,
        0 < service.config.elements <= protocol::MAX_SOLUTION_ELEMENTS_LIMIT,
        service::issue_error(service, template, entropy, now) is None,
        properly_signed(service, service::issued_challenge(service, template, entropy, now)),
        statement::valid_statement(stated),
        stated.challenge == Some(service::issued_challenge(service, template, entropy, now)),
        artifact_laws::sized(stated.challenge),
        stated.manifest.max_solution_elements <= service.config.elements,
        stated.manifest.max_public_matrix_terms <= service.config.matrix_terms,
        stated.manifest.max_public_rhs_terms <= service.config.rhs_terms,
        service.config.allowed.contains(stated.manifest.protocol),
        problem_json.len() + manifest_json.len() <= artifact::MAX_PUBLIC_STATEMENT_BYTES,
        payload.len() <= service::admission_limits(service).maximum_payload_bytes,
        service.direct_payload <= artifact::MAX_BACKEND_PAYLOAD_BYTES,
        in_window(service, now, started_at),
    ensures
        ({
            let encoded = artifact::artifact_bytes(
                stated.manifest.protocol,
                stated.challenge,
                problem_json,
                manifest_json,
                payload,
            );
            let decoded = DecodedModel {
                problem: stated.problem,
                problem_json,
                manifest: stated.manifest,
                manifest_json,
            };
            let polls = ValidationCancellation {
                before_parsing: false,
                after_parsing: false,
                before_verification: false,
                after_verification: false,
            };
            service::submission_outcome(
                service,
                encoded,
                Some(decoded),
                started_at,
                Ok(report),
                polls,
            ) == Ok::<SubmissionModel, ServiceError>(
                SubmissionModel {
                    artifact: ArtifactModel { statement: stated, payload, encoded },
                    report,
                    started_at,
                },
            )
        }),
{
    let limits = service::admission_limits(service);
    let encoded = artifact::artifact_bytes(
        stated.manifest.protocol,
        stated.challenge,
        problem_json,
        manifest_json,
        payload,
    );
    let decoded = DecodedModel {
        problem: stated.problem,
        problem_json,
        manifest: stated.manifest,
        manifest_json,
    };
    let parsed = ArtifactModel { statement: stated, payload, encoded };
    let polls = ValidationCancellation {
        before_parsing: false,
        after_parsing: false,
        before_verification: false,
        after_verification: false,
    };
    artifact_laws::encoded_artifacts_parse_back(
        stated,
        problem_json,
        manifest_json,
        payload,
        limits,
        service.config.allowed,
    );
    let envelope = artifact::envelope_outcome(encoded, limits, service.config.allowed)->Ok_0;
    issued_challenges_are_accepted(service, template, entropy, now, started_at, parsed);
    lemma_admission_steps(
        service,
        envelope,
        encoded,
        decoded,
        started_at,
        parsed,
        report,
        polls,
    );
}

proof fn lemma_accepted_policy(
    envelope: EnvelopeModel,
    encoded: Seq<u8>,
    decoded: DecodedModel,
    limits: artifact::ArtifactResourceLimits,
    accepted: ArtifactModel,
)
    requires
        artifact::accept_outcome(envelope, encoded, decoded, limits) == Ok::<
            ArtifactModel,
            ValidationError,
        >(accepted),
    ensures
        accepted.statement.manifest.max_solution_elements <= limits.maximum_solution_elements,
        accepted.statement.manifest.max_public_matrix_terms <= limits.maximum_public_matrix_terms,
        accepted.statement.manifest.max_public_rhs_terms <= limits.maximum_public_rhs_terms,
        accepted.payload.len() <= limits.maximum_payload_bytes,
{
}

/// Whatever a service validates stays within its policy: the protocol is
/// enabled, the manifest asks for no more than the policy allows, and the work
/// of the compiled problem stays below both.
pub proof fn validated_submissions_respect_the_policy(
    service: ServiceModel,
    proof_bytes: Seq<u8>,
    decoded: DecodedModel,
    started_at: i64,
    report: Result<BackendVerifierReport, BackendError>,
    polls: ValidationCancellation,
    validated: SubmissionModel,
)
    requires
        service::submission_outcome(
            service,
            proof_bytes,
            Some(decoded),
            started_at,
            report,
            polls,
        ) == Ok::<SubmissionModel, ServiceError>(validated),
    ensures
        ({
            let stated = validated.artifact.statement;
            &&& statement::valid_statement(stated)
            &&& service.config.allowed.contains(stated.manifest.protocol)
            &&& stated.problem.matrix.dimension() <= stated.manifest.max_solution_elements
                <= service.config.elements
            &&& statement::matrix_terms(stated.generated)
                <= stated.manifest.max_public_matrix_terms <= service.config.matrix_terms
            &&& statement::rhs_terms(stated.generated) <= stated.manifest.max_public_rhs_terms
                <= service.config.rhs_terms
            &&& validated.artifact.encoded == proof_bytes
        }),
{
    let limits = service::admission_limits(service);
    let allowed = service.config.allowed;
    let envelope = artifact::envelope_outcome(proof_bytes, limits, allowed)->Ok_0;
    let parsed = artifact::accept_outcome(envelope, proof_bytes, decoded, limits)->Ok_0;
    assert(validated.artifact == parsed);
    artifact_laws::accepted_artifacts_are_canonical(
        proof_bytes,
        decoded,
        limits,
        allowed,
        parsed,
    );
    lemma_accepted_policy(envelope, proof_bytes, decoded, limits, parsed);
    lemma_valid_statement_limits(parsed.statement);
}

proof fn lemma_valid_statement_limits(stated: StatementModel)
    requires
        statement::valid_statement(stated),
    ensures
        stated.problem.error() is None,
        stated.problem.matrix.dimension() <= stated.manifest.max_solution_elements,
        statement::matrix_terms(stated.generated) <= stated.manifest.max_public_matrix_terms,
        statement::rhs_terms(stated.generated) <= stated.manifest.max_public_rhs_terms,
        statement::consistent_challenge(stated.problem, stated.challenge),
{
}

/// Whatever a service validates was challenged by it: the artifact carries a
/// challenge that its own key signed, in time and with the configured lifetime,
/// and that challenge explains the randomness of the problem. Literal seeds are
/// never accepted.
pub proof fn validated_submissions_were_challenged(
    service: ServiceModel,
    proof_bytes: Seq<u8>,
    decoded: DecodedModel,
    started_at: i64,
    report: Result<BackendVerifierReport, BackendError>,
    polls: ValidationCancellation,
    validated: SubmissionModel,
)
    requires
        service::submission_outcome(
            service,
            proof_bytes,
            Some(decoded),
            started_at,
            report,
            polls,
        ) == Ok::<SubmissionModel, ServiceError>(validated),
    ensures
        ({
            let stated = validated.artifact.statement;
            &&& stated.challenge matches Some(challenge)
            &&& properly_signed(service, challenge)
            &&& challenge.payload.issuer == service.config.issuer
            &&& challenge.payload.key_id == service.config.key_id
            &&& challenge.payload.expires_at - challenge.payload.issued_at
                == service.config.lifetime
            &&& challenge.payload.issued_at <= started_at + service.config.skew
            &&& started_at <= challenge.payload.expires_at
            &&& challenge.payload.template_digest == problem::template_digest(
                stated.problem.template(),
            )
            &&& stated.problem.randomness is ChallengeDerived
            &&& statement_laws::explained(stated.problem, stated.challenge)
            &&& report == Ok::<BackendVerifierReport, BackendError>(validated.report)
        }),
{
    validated_submissions_respect_the_policy(
        service,
        proof_bytes,
        decoded,
        started_at,
        report,
        polls,
        validated,
    );
    lemma_valid_statement_limits(validated.artifact.statement);
}

/// A cancelled validation never succeeds, and one that is cancelled at its start
/// answers so whatever was submitted.
pub proof fn cancelled_validation_stops(
    service: ServiceModel,
    proof_bytes: Seq<u8>,
    decoded: Option<DecodedModel>,
    started_at: i64,
    report: Result<BackendVerifierReport, BackendError>,
    polls: ValidationCancellation,
)
    requires
        polls.before_parsing || polls.after_parsing || polls.before_verification
            || polls.after_verification,
    ensures
        service::submission_outcome(
            service,
            proof_bytes,
            decoded,
            started_at,
            report,
            polls,
        ) is Err,
        polls.before_parsing ==> service::submission_outcome(
            service,
            proof_bytes,
            decoded,
            started_at,
            report,
            polls,
        ) == Err::<SubmissionModel, ServiceError>(ServiceError::ValidationCancelled),
{
}

/// A certificate is dated within its challenge and after its validation
/// started, binds what was validated, and verifies for its service.
pub proof fn certificates_bind_validated_work(
    service: ServiceModel,
    submission: SubmissionModel,
    issued_at: i64,
    certified: SignedCertificateModel,
)
    requires
        submission.artifact.statement.challenge is Some,
        service::certification(service, submission, issued_at) == Ok::<
            SignedCertificateModel,
            ServiceError,
        >(certified),
        signing::ed25519_accepts(
            signing::ed25519_public_key(service.seed),
            certificate::certificate_message(certified.payload),
            certified.signature,
        ),
    ensures
        ({
            let challenge = submission.artifact.statement.challenge->0;
            &&& submission.started_at <= issued_at
            &&& challenge.payload.issued_at <= issued_at <= challenge.payload.expires_at
            &&& certified.payload.issuer == service.config.issuer
            &&& certified.payload.key_id == service.config.key_id
            &&& certified.payload.validator_build == service.config.validator_build
            &&& certified.payload.protocol == submission.report.protocol
            &&& certified.payload.issued_at == issued_at
            &&& certified.payload.challenge_digest == protocol::challenge_digest(challenge)
            &&& certified.payload.problem_digest == problem::problem_digest(
                submission.artifact.statement.problem,
            )
            &&& certified.payload.manifest_digest == certificate::manifest_digest(
                submission.artifact.statement.manifest,
            )
            &&& certified.payload.proof_digest == artifact::artifact_digest(
                submission.artifact.encoded,
            )
            &&& certified.payload.score == submission.report.score
            &&& certificate::certificate_refusal(
                certified,
                signing::ed25519_public_key(service.seed),
                service.config.issuer,
                service.config.key_id,
            ) is None
        }),
{
}

/// A template that a service challenges compiles, if at all, to a problem whose
/// evaluator terms stay within the service's policy.
pub proof fn challenged_templates_respect_the_policy(
    service: ServiceModel,
    template: TemplateModel,
    entropy: Seq<u8>,
    now: i64,
    problem: ProblemModel,
    compiled: crate::generator::GeneratedModel,
)
    requires
        service::issue_error(service, template, entropy, now) is None,
        problem.template() == template,
        crate::generator::compiled_problem(problem) == Ok::<
            crate::generator::GeneratedModel,
            ProblemError,
        >(compiled),
    ensures
        statement::matrix_terms(compiled) <= service.config.matrix_terms,
        statement::rhs_terms(compiled) <= service.config.rhs_terms,
        problem.matrix.dimension() <= service.config.elements,
{
    terms::compiled_terms_are_those_of_the_template(problem, compiled);
}

/// What a service issues is what it was asked for: the payload names the
/// service, starts at the given time, lasts for the configured lifetime, carries
/// the entropy that was handed in and the digest of the template, and is signed
/// by the service's own key.
pub proof fn issued_challenges_carry_the_request(
    service: ServiceModel,
    template: TemplateModel,
    entropy: Seq<u8>,
    now: i64,
)
    requires
        service::issue_error(service, template, entropy, now) is None,
    ensures
        ({
            let challenge = service::issued_challenge(service, template, entropy, now);
            &&& challenge.payload.issuer == service.config.issuer
            &&& challenge.payload.key_id == service.config.key_id
            &&& challenge.payload.issued_at == now
            &&& challenge.payload.expires_at - now == service.config.lifetime
            &&& challenge.payload.entropy == entropy
            &&& challenge.payload.template_digest == problem::template_digest(template)
            &&& challenge.signature == signing::ed25519_signature(
                service.seed,
                protocol::challenge_message(challenge.payload),
            )
        }),
{
}

/// Two issues of one service that differ in entropy, time or template digest
/// differ in their payload, in the message that is signed, and in the context
/// from which the instance seed is derived.
pub proof fn different_requests_give_different_challenges(
    service: ServiceModel,
    first_template: TemplateModel,
    first_entropy: Seq<u8>,
    first_now: i64,
    second_template: TemplateModel,
    second_entropy: Seq<u8>,
    second_now: i64,
)
    requires
        service::issue_error(service, first_template, first_entropy, first_now) is None,
        service::issue_error(service, second_template, second_entropy, second_now) is None,
        first_entropy.len() == 32,
        second_entropy.len() == 32,
        problem::template_digest(first_template).len() == 32,
        problem::template_digest(second_template).len() == 32,
        first_entropy != second_entropy || first_now != second_now || problem::template_digest(
            first_template,
        ) != problem::template_digest(second_template),
    ensures
        ({
            let first = service::issued_challenge(
                service,
                first_template,
                first_entropy,
                first_now,
            ).payload;
            let second = service::issued_challenge(
                service,
                second_template,
                second_entropy,
                second_now,
            ).payload;
            &&& first != second
            &&& protocol::challenge_message(first) != protocol::challenge_message(second)
            &&& protocol::challenge_encoding(first) != protocol::challenge_encoding(second)
        }),
{
    let first = service::issued_challenge(service, first_template, first_entropy, first_now).payload;
    let second = service::issued_challenge(
        service,
        second_template,
        second_entropy,
        second_now,
    ).payload;
    if protocol::challenge_message(first) == protocol::challenge_message(second) {
        digest_laws::challenge_messages_bind_payloads(first, second);
    }
    if protocol::challenge_encoding(first) == protocol::challenge_encoding(second) {
        protocol::challenge_context_binds_the_payload(first, second);
    }
}

/// When a service issues: for a valid challenge-derived template within its
/// policy, unless the timestamps leave their range.
pub proof fn issuing_follows_the_policy(
    service: ServiceModel,
    template: TemplateModel,
    entropy: Seq<u8>,
    now: i64,
)
    requires
        protocol::valid_identifier(service.config.issuer),
        protocol::valid_identifier(service.config.key_id),
        0 < service.config.lifetime,
    ensures
        service::issue_error(service, template, entropy, now) is None <==> {
            &&& template.error() is None
            &&& template.randomness is ChallengeDerived
            &&& template.matrix.dimension() <= service.config.elements
            &&& terms::recipe_matrix_terms(template.matrix) <= service.config.matrix_terms
            &&& terms::recipe_rhs_terms(template.rhs, template.matrix.dimension())
                <= service.config.rhs_terms
            &&& 0 <= now
            &&& now + service.config.lifetime <= i64::MAX
        },
{
}

/// When the provenance of a parsed artifact is accepted: it carries a valid
/// challenge of this service, with the configured lifetime, that the service's
/// key signed, that was not issued later than the tolerance allows, and that has
/// not expired.
pub proof fn provenance_is_decided_by_the_challenge(
    service: ServiceModel,
    parsed: ArtifactModel,
    started_at: i64,
)
    ensures
        service::provenance_error(service, parsed, started_at) is None <==> {
            &&& parsed.statement.challenge matches Some(challenge)
            &&& properly_signed(service, challenge)
            &&& protocol::challenge_error(challenge.payload) is None
            &&& challenge.payload.issuer == service.config.issuer
            &&& challenge.payload.key_id == service.config.key_id
            &&& challenge.payload.expires_at - challenge.payload.issued_at
                == service.config.lifetime
            &&& 0 <= started_at
            &&& 0 <= service.config.skew
            &&& challenge.payload.issued_at <= started_at + service.config.skew
            &&& started_at <= challenge.payload.expires_at
        },
{
}

/// When work is certified: not before it was validated nor before its challenge
/// was issued, not after the challenge expired, and with a score that belongs to
/// its protocol.
pub proof fn certification_is_decided_by_time_and_score(
    service: ServiceModel,
    submission: SubmissionModel,
    issued_at: i64,
)
    requires
        submission.artifact.statement.challenge is Some,
        protocol::valid_identifier(service.config.issuer),
        protocol::valid_identifier(service.config.key_id),
        protocol::valid_identifier(service.config.validator_build),
    ensures
        ({
            let challenge = submission.artifact.statement.challenge->0.payload;
            let certified = service::certification(service, submission, issued_at);
            &&& certified is Ok <==> {
                &&& submission.started_at <= issued_at
                &&& challenge.issued_at <= issued_at
                &&& issued_at <= challenge.expires_at
                &&& 0 <= issued_at
                &&& certificate::score_error(
                    submission.report.score,
                    submission.report.protocol,
                ) is None
            }
            &&& certified matches Ok(signed) ==> signed.signature == signing::ed25519_signature(
                service.seed,
                certificate::certificate_message(signed.payload),
            )
        }),
{
}

/// Certificates of one service state different fields wherever the certified
/// work differs: in its challenge, problem, manifest, artifact, protocol or
/// score.
pub proof fn different_work_gets_different_certificates(
    service: ServiceModel,
    first: SubmissionModel,
    second: SubmissionModel,
    issued_at: i64,
)
    requires
        first.artifact.statement.challenge is Some,
        second.artifact.statement.challenge is Some,
        service::certification(service, first, issued_at) is Ok,
        service::certification(service, second, issued_at) is Ok,
        service::certification(service, first, issued_at)->Ok_0.payload == service::certification(
            service,
            second,
            issued_at,
        )->Ok_0.payload,
    ensures
        first.report == second.report,
        protocol::challenge_digest(first.artifact.statement.challenge->0)
            == protocol::challenge_digest(second.artifact.statement.challenge->0),
        problem::problem_digest(first.artifact.statement.problem) == problem::problem_digest(
            second.artifact.statement.problem,
        ),
        certificate::manifest_digest(first.artifact.statement.manifest)
            == certificate::manifest_digest(second.artifact.statement.manifest),
        artifact::artifact_digest(first.artifact.encoded) == artifact::artifact_digest(
            second.artifact.encoded,
        ),
{
}

/// What a backend reports is what is recorded: its report with the artifact that
/// was admitted and the time at which validation started, or its refusal.
pub proof fn conclusions_follow_the_report(
    admitted: ArtifactModel,
    started_at: i64,
    report: Result<BackendVerifierReport, BackendError>,
    cancelled: bool,
)
    ensures
        match service::conclusion(admitted, started_at, report, cancelled) {
            Ok(validated) => {
                &&& !cancelled
                &&& report == Ok::<BackendVerifierReport, BackendError>(validated.report)
                &&& validated.artifact == admitted
                &&& validated.started_at == started_at
            },
            Err(error) => {
                ||| cancelled && error == ServiceError::ValidationCancelled
                ||| !cancelled && report is Err && error == (ServiceError::Backend {
                    error: report->Err_0,
                })
            },
        },
{
}

/// Which configurations are accepted.
pub proof fn configurations_are_accepted_within_bounds(
    config: service::ConfigModel,
    direct_payload: Option<usize>,
)
    ensures
        service::config_error(config, direct_payload) is None <==> {
            &&& 0 < config.lifetime
            &&& 0 <= config.skew
            &&& 0 < config.elements <= protocol::MAX_SOLUTION_ELEMENTS_LIMIT
            &&& config.elements <= usize::MAX
            &&& direct_payload matches Some(payload)
            &&& protocol::MAX_CHALLENGE_BYTES + artifact::MAX_PUBLIC_STATEMENT_BYTES + payload + 128
                <= usize::MAX
            &&& 0 < config.matrix_terms <= protocol::MAX_PUBLIC_EVALUATION_TERMS_LIMIT
            &&& 0 < config.rhs_terms <= protocol::MAX_PUBLIC_EVALUATION_TERMS_LIMIT
            &&& config.allowed.len() > 0
            &&& protocol::valid_identifier(config.issuer)
            &&& protocol::valid_identifier(config.key_id)
            &&& protocol::valid_identifier(config.validator_build)
        },
{
}

/// A submission cap leaves room for every artifact that the policy admits: any
/// statement and challenge within their own limits, and a payload up to the
/// larger of the direct and the succinct one.
pub proof fn submission_caps_cover_every_admitted_artifact(
    elements: u64,
    direct_payload: usize,
    selected: protocol::ProofProtocol,
    challenge: Option<protocol::SignedChallengeModel>,
    problem_json: Seq<u8>,
    manifest_json: Seq<u8>,
    payload: Seq<u8>,
)
    requires
        service::submission_cap(elements, Some(direct_payload)) is Some,
        problem_json.len() + manifest_json.len() <= artifact::MAX_PUBLIC_STATEMENT_BYTES,
        artifact::challenge_frame_bytes(challenge).len() <= protocol::MAX_CHALLENGE_BYTES,
        payload.len() <= direct_payload || payload.len() <= artifact::MAX_SUCCINCT_PAYLOAD_BYTES,
    ensures
        artifact::artifact_bytes(selected, challenge, problem_json, manifest_json, payload).len()
            <= service::submission_cap(elements, Some(direct_payload))->0,
        service::submission_cap(elements, Some(direct_payload))->0
            >= artifact::MAX_SUCCINCT_ARTIFACT_BYTES,
{
    artifact::lemma_artifact_length(selected, challenge, problem_json, manifest_json, payload);
}

} // verus!
