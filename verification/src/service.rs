//! Stateless challenge issuance, submission admission, and certificate
//! construction.
//!
//! The service has no transport, clock, random-number generator or file system.
//! Adapters supply time, entropy and cancellation explicitly, decode the
//! statement text of an artifact, and run the proof backends.

use vstd::prelude::*;

use crate::artifact;
use crate::artifact::{
    ArtifactEnvelope, ArtifactModel, ArtifactPrelude, ArtifactResourceLimits, ArtifactSummary,
    DecodedModel, DecodedStatement, EnvelopeModel, MAX_PUBLIC_STATEMENT_BYTES,
    MAX_SUCCINCT_ARTIFACT_BYTES, MAX_SUCCINCT_PAYLOAD_BYTES,
};
use crate::canonical::Digest;
use crate::certificate;
use crate::certificate::{
    CertificateModel, CertificatePayload, CertifiedScore, SignedCertificate,
    SignedCertificateModel,
};
use crate::problem;
use crate::problem::{ProblemError, ProblemTemplate, TemplateModel};
use crate::protocol;
use crate::protocol::{
    validate_identifier, CertificateSchema, ChallengeModel, ChallengePayload, ChallengeSchema,
    ProofProtocol, ProtocolError, RetryPolicy, SignedChallenge, SignedChallengeModel,
    MAX_CHALLENGE_BYTES, MAX_PUBLIC_EVALUATION_TERMS_LIMIT, MAX_SOLUTION_ELEMENTS_LIMIT,
};
use crate::randomness::TemplateRandomness;
use crate::signing;
use crate::signing::{SigningKey, VerifyingKey};
use crate::statement::ValidationError;
use crate::terms;
use crate::terms::PublicEvaluationTerms;
use crate::text;

verus! {

#[derive(Debug, PartialEq, Eq)]
pub struct ServiceConfig {
    pub issuer: String,
    pub key_id: String,
    pub challenge_lifetime_seconds: i64,
    pub maximum_future_skew_seconds: i64,
    pub maximum_solution_elements: u64,
    pub maximum_public_matrix_terms: u64,
    pub maximum_public_rhs_terms: u64,
    /// Immutable protocol allowlist for this service process.
    pub allowed_protocols: Vec<ProofProtocol>,
    pub validator_build: String,
}

/// What a service configuration says.
#[verifier::ext_equal]
pub struct ConfigModel {
    pub issuer: Seq<char>,
    pub key_id: Seq<char>,
    pub lifetime: i64,
    pub skew: i64,
    pub elements: u64,
    pub matrix_terms: u64,
    pub rhs_terms: u64,
    pub allowed: Seq<ProofProtocol>,
    pub validator_build: Seq<char>,
}

impl View for ServiceConfig {
    type V = ConfigModel;

    open spec fn view(&self) -> ConfigModel {
        ConfigModel {
            issuer: self.issuer@,
            key_id: self.key_id@,
            lifetime: self.challenge_lifetime_seconds,
            skew: self.maximum_future_skew_seconds,
            elements: self.maximum_solution_elements,
            matrix_terms: self.maximum_public_matrix_terms,
            rhs_terms: self.maximum_public_rhs_terms,
            allowed: self.allowed_protocols@,
            validator_build: self.validator_build@,
        }
    }
}

impl Clone for ServiceConfig {
    fn clone(&self) -> (copy: Self)
        ensures
            copy@ == self@,
    {
        ServiceConfig {
            issuer: text::copy_text(self.issuer.as_str()),
            key_id: text::copy_text(self.key_id.as_str()),
            challenge_lifetime_seconds: self.challenge_lifetime_seconds,
            maximum_future_skew_seconds: self.maximum_future_skew_seconds,
            maximum_solution_elements: self.maximum_solution_elements,
            maximum_public_matrix_terms: self.maximum_public_matrix_terms,
            maximum_public_rhs_terms: self.maximum_public_rhs_terms,
            allowed_protocols: vstd::slice::slice_to_vec(self.allowed_protocols.as_slice()),
            validator_build: text::copy_text(self.validator_build.as_str()),
        }
    }
}

/// Why a proof backend rejected an artifact.
#[derive(Debug, PartialEq, Eq)]
pub struct BackendError {
    pub message: String,
}

/// Structurally and cryptographically verified backend output.
#[derive(Clone, Copy, Debug, PartialEq, Eq)]
pub struct BackendVerifierReport {
    pub protocol: ProofProtocol,
    pub score: CertifiedScore,
}

impl BackendVerifierReport {
    pub fn protocol(&self) -> (protocol: ProofProtocol)
        ensures
            protocol == self.protocol,
    {
        self.protocol
    }

    pub fn certified_score(&self) -> (score: CertifiedScore)
        ensures
            score == self.score,
    {
        self.score
    }
}

/// Why the service refused a request.
#[derive(Debug, PartialEq, Eq)]
pub enum ServiceError {
    /// The service configuration is invalid.
    InvalidConfiguration { reason: &'static str },
    /// Challenge issuance requires challenge-derived template randomness.
    ChallengeRequiresDerivedTemplate,
    /// The problem exceeds this service's solution-element policy.
    SolutionElementLimit,
    /// The problem exceeds this service's public-evaluator term policy.
    PublicEvaluationLimit,
    /// The proof protocol is not enabled by this service.
    ProtocolNotAllowed { protocol: ProofProtocol },
    /// Validation was cancelled.
    ValidationCancelled,
    /// Hosted validation requires a signed challenge.
    SignedChallengeRequired,
    /// The challenge lifetime differs from this service's policy.
    ChallengeLifetimeMismatch,
    /// The signed challenge is bound to a different problem template.
    TemplateDigestMismatch,
    /// The problem challenge provenance is inconsistent.
    ProblemProvenanceMismatch,
    /// The certificate timestamp precedes validation start.
    CertificateBeforeValidation,
    /// The certificate timestamp precedes the signed challenge.
    CertificateBeforeChallenge,
    /// The challenge expired before validation completed.
    ChallengeExpiredDuringValidation,
    /// The problem is invalid.
    Problem { error: ProblemError },
    /// A signed protocol object is invalid.
    Protocol { error: ProtocolError },
    /// The common validation artifact is invalid.
    Artifact { error: ValidationError },
    /// A validation backend rejected the artifact.
    Backend { error: BackendError },
}

/// The size of a container around a payload, at most.
pub open spec fn container_bytes(payload: nat) -> nat {
    MAX_CHALLENGE_BYTES as nat + MAX_PUBLIC_STATEMENT_BYTES as nat + payload + 128
}

/// The submission cap of an element policy under which the backend that carries
/// complete solutions needs payloads of a length.
pub open spec fn submission_cap(elements: u64, direct_payload: Option<usize>) -> Option<usize> {
    if !(0 < elements <= MAX_SOLUTION_ELEMENTS_LIMIT) || elements > usize::MAX {
        None
    } else {
        match direct_payload {
            None => None,
            Some(payload) => if container_bytes(payload as nat) > usize::MAX {
                None
            } else if container_bytes(payload as nat) > MAX_SUCCINCT_ARTIFACT_BYTES {
                Some(container_bytes(payload as nat) as usize)
            } else {
                Some(MAX_SUCCINCT_ARTIFACT_BYTES)
            },
        }
    }
}

/// Computes the body cap for the common container under a service's element
/// policy. Succinct proofs retain their own cap even for tiny systems; the
/// direct oracle scales with `direct_payload_bytes`, the largest payload of the
/// backend that carries complete solutions, if it admits the policy at all.
pub fn maximum_submission_bytes(
    maximum_solution_elements: u64,
    direct_payload_bytes: Option<usize>,
) -> (cap: Option<usize>)
    ensures
        cap == submission_cap(maximum_solution_elements, direct_payload_bytes),
{
    if maximum_solution_elements == 0 || maximum_solution_elements > MAX_SOLUTION_ELEMENTS_LIMIT {
        return None;
    }
    let direct_payload: usize = match direct_payload_bytes {
        Some(payload) => payload,
        None => {
            return None;
        },
    };
    let overhead: usize = MAX_CHALLENGE_BYTES + MAX_PUBLIC_STATEMENT_BYTES + 128;
    if direct_payload > usize::MAX - overhead {
        return None;
    }
    let direct_artifact: usize = overhead + direct_payload;
    if direct_artifact > MAX_SUCCINCT_ARTIFACT_BYTES {
        Some(direct_artifact)
    } else {
        Some(MAX_SUCCINCT_ARTIFACT_BYTES)
    }
}

/// The refusal of a service configuration, if any.
pub open spec fn config_error(config: ConfigModel, direct_payload: Option<usize>) -> Option<
    ServiceError,
> {
    if config.lifetime <= 0 {
        Some(
            ServiceError::InvalidConfiguration { reason: "challenge lifetime must be positive" },
        )
    } else if config.skew < 0 {
        Some(
            ServiceError::InvalidConfiguration {
                reason: "maximum future skew must not be negative",
            },
        )
    } else if submission_cap(config.elements, direct_payload) is None {
        Some(
            ServiceError::InvalidConfiguration {
                reason: "maximum solution elements is outside backend bounds",
            },
        )
    } else if !certificate::valid_term_limit(config.matrix_terms) || !certificate::valid_term_limit(
        config.rhs_terms,
    ) {
        Some(
            ServiceError::InvalidConfiguration {
                reason: "public-evaluator term limits are outside protocol bounds",
            },
        )
    } else if config.allowed.len() == 0 {
        Some(
            ServiceError::InvalidConfiguration {
                reason: "at least one proof protocol must be enabled",
            },
        )
    } else if !protocol::valid_identifier(config.issuer) {
        Some(
            ServiceError::Protocol { error: ProtocolError::InvalidIdentifier { field: "issuer" } },
        )
    } else if !protocol::valid_identifier(config.key_id) {
        Some(
            ServiceError::Protocol { error: ProtocolError::InvalidIdentifier { field: "key_id" } },
        )
    } else if !protocol::valid_identifier(config.validator_build) {
        Some(
            ServiceError::Protocol {
                error: ProtocolError::InvalidIdentifier { field: "validator_build" },
            },
        )
    } else {
        None
    }
}

/// What a service is: its policy, the largest direct payload under it, and the
/// seed of its signing key.
#[verifier::ext_equal]
pub struct ServiceModel {
    pub config: ConfigModel,
    pub direct_payload: usize,
    pub seed: Seq<u8>,
}

pub struct StatelessValidatorService {
    config: ServiceConfig,
    direct_payload_bytes: usize,
    signing_key: SigningKey,
}

impl View for StatelessValidatorService {
    type V = ServiceModel;

    closed spec fn view(&self) -> ServiceModel {
        ServiceModel {
            config: self.config@,
            direct_payload: self.direct_payload_bytes,
            seed: self.signing_key@,
        }
    }
}

impl Clone for StatelessValidatorService {
    fn clone(&self) -> (copy: Self)
        ensures
            copy@ == self@,
    {
        proof {
            use_type_invariant(self);
        }
        StatelessValidatorService {
            config: self.config.clone(),
            direct_payload_bytes: self.direct_payload_bytes,
            signing_key: self.signing_key,
        }
    }
}

/// The payload of a challenge that a service issues.
pub open spec fn issued_payload(
    service: ServiceModel,
    template: TemplateModel,
    entropy: Seq<u8>,
    now: i64,
) -> ChallengeModel {
    ChallengeModel {
        issuer: service.config.issuer,
        key_id: service.config.key_id,
        issued_at: now,
        expires_at: (now + service.config.lifetime) as i64,
        entropy,
        template_digest: problem::template_digest(template),
    }
}

/// The refusal to issue a challenge, if any.
pub open spec fn issue_error(
    service: ServiceModel,
    template: TemplateModel,
    entropy: Seq<u8>,
    now: i64,
) -> Option<ServiceError> {
    let config = service.config;
    if template.error() is Some {
        Some(ServiceError::Problem { error: template.error()->0 })
    } else if !(template.randomness is ChallengeDerived) {
        Some(ServiceError::ChallengeRequiresDerivedTemplate)
    } else if template.matrix.dimension() > config.elements {
        Some(ServiceError::SolutionElementLimit)
    } else if terms::recipe_matrix_terms(template.matrix) > config.matrix_terms
        || terms::recipe_rhs_terms(template.rhs, template.matrix.dimension()) > config.rhs_terms {
        Some(ServiceError::PublicEvaluationLimit)
    } else if now + config.lifetime > i64::MAX {
        Some(ServiceError::InvalidConfiguration { reason: "challenge timestamp overflow" })
    } else {
        match protocol::challenge_error(issued_payload(service, template, entropy, now)) {
            Some(error) => Some(ServiceError::Protocol { error }),
            None => None,
        }
    }
}

/// A challenge payload with the service's signature.
pub open spec fn issued_challenge(
    service: ServiceModel,
    template: TemplateModel,
    entropy: Seq<u8>,
    now: i64,
) -> SignedChallengeModel {
    let payload = issued_payload(service, template, entropy, now);
    SignedChallengeModel {
        payload,
        signature: signing::ed25519_signature(service.seed, protocol::challenge_message(payload)),
    }
}

/// The admission policy of a service.
pub open spec fn admission_limits(service: ServiceModel) -> ArtifactResourceLimits {
    ArtifactResourceLimits {
        maximum_solution_elements: service.config.elements,
        maximum_payload_bytes: if service.direct_payload > MAX_SUCCINCT_PAYLOAD_BYTES {
            service.direct_payload
        } else {
            MAX_SUCCINCT_PAYLOAD_BYTES
        },
        maximum_public_matrix_terms: service.config.matrix_terms,
        maximum_public_rhs_terms: service.config.rhs_terms,
    }
}

/// How the service answers a refused artifact.
pub open spec fn artifact_answer(error: ValidationError) -> ServiceError {
    match error {
        ValidationError::ProtocolNotAllowed { protocol } => ServiceError::ProtocolNotAllowed {
            protocol,
        },
        _ => ServiceError::Artifact { error },
    }
}

fn refused_artifact(error: ValidationError) -> (answer: ServiceError)
    ensures
        answer == artifact_answer(error),
{
    match error {
        ValidationError::ProtocolNotAllowed { protocol } => ServiceError::ProtocolNotAllowed {
            protocol,
        },
        _ => ServiceError::Artifact { error },
    }
}

/// What opening a submission gives.
pub open spec fn opening_outcome(service: ServiceModel, proof: Seq<u8>, cancelled: bool) -> Result<
    EnvelopeModel,
    ServiceError,
> {
    if cancelled {
        Err(ServiceError::ValidationCancelled)
    } else {
        match artifact::envelope_outcome(
            proof,
            admission_limits(service),
            service.config.allowed,
        ) {
            Ok(envelope) => Ok(envelope),
            Err(error) => Err(artifact_answer(error)),
        }
    }
}

/// The refusal of the provenance of a parsed artifact, if any.
pub open spec fn provenance_error(
    service: ServiceModel,
    parsed: ArtifactModel,
    started_at: i64,
) -> Option<ServiceError> {
    match parsed.statement.challenge {
        None => Some(ServiceError::SignedChallengeRequired),
        Some(challenge) => match protocol::challenge_refusal(
            challenge,
            signing::ed25519_public_key(service.seed),
            service.config.issuer,
            service.config.key_id,
            started_at,
            service.config.skew,
        ) {
            Some(error) => Some(ServiceError::Protocol { error }),
            None => if challenge.payload.expires_at - challenge.payload.issued_at
                != service.config.lifetime {
                Some(ServiceError::ChallengeLifetimeMismatch)
            } else {
                None
            },
        },
    }
}

/// What parsing an opened submission gives, with what its statement text
/// decodes to, or nothing where it holds no statement.
pub open spec fn parsing_outcome(
    envelope: EnvelopeModel,
    proof: Seq<u8>,
    decoded: Option<DecodedModel>,
    limits: ArtifactResourceLimits,
) -> Result<ArtifactModel, ServiceError> {
    let parsed = match decoded {
        None => Err(ValidationError::Json),
        Some(found) => artifact::accept_outcome(envelope, proof, found, limits),
    };
    match parsed {
        Err(error) => Err(artifact_answer(error)),
        Ok(found) => Ok(found),
    }
}

/// What checking where a parsed submission comes from gives, after a poll for
/// cancellation.
pub open spec fn provenance_outcome(
    service: ServiceModel,
    parsed: ArtifactModel,
    started_at: i64,
    cancelled: bool,
) -> Result<ArtifactModel, ServiceError> {
    if cancelled {
        Err(ServiceError::ValidationCancelled)
    } else {
        match provenance_error(service, parsed, started_at) {
            Some(error) => Err(error),
            None => Ok(parsed),
        }
    }
}

/// What admitting an opened submission to its backend gives.
pub open spec fn admission_outcome(
    service: ServiceModel,
    envelope: EnvelopeModel,
    proof: Seq<u8>,
    decoded: Option<DecodedModel>,
    started_at: i64,
    cancelled_after_parsing: bool,
    cancelled_before_verification: bool,
) -> Result<ArtifactModel, ServiceError> {
    match parsing_outcome(envelope, proof, decoded, admission_limits(service)) {
        Err(error) => Err(error),
        Ok(parsed) => match provenance_outcome(
            service,
            parsed,
            started_at,
            cancelled_after_parsing,
        ) {
            Err(error) => Err(error),
            Ok(admitted) => if cancelled_before_verification {
                Err(ServiceError::ValidationCancelled)
            } else {
                Ok(admitted)
            },
        },
    }
}

/// What validated work is.
#[verifier::ext_equal]
pub struct SubmissionModel {
    pub artifact: ArtifactModel,
    pub report: BackendVerifierReport,
    pub started_at: i64,
}

/// What the report of a backend makes of an admitted submission.
pub open spec fn conclusion(
    admitted: ArtifactModel,
    started_at: i64,
    report: Result<BackendVerifierReport, BackendError>,
    cancelled: bool,
) -> Result<SubmissionModel, ServiceError> {
    if cancelled {
        Err(ServiceError::ValidationCancelled)
    } else {
        match report {
            Err(error) => Err(ServiceError::Backend { error }),
            Ok(found) => Ok(SubmissionModel { artifact: admitted, report: found, started_at }),
        }
    }
}

/// What polling for cancellation gave: before parsing, after parsing, before
/// backend verification, and after it.
#[derive(Clone, Copy, Debug, PartialEq, Eq, Structural)]
pub struct ValidationCancellation {
    pub before_parsing: bool,
    pub after_parsing: bool,
    pub before_verification: bool,
    pub after_verification: bool,
}

impl ValidationCancellation {
    /// A validation that is never cancelled.
    pub fn never() -> (polls: ValidationCancellation)
        ensures
            polls == (ValidationCancellation {
                before_parsing: false,
                after_parsing: false,
                before_verification: false,
                after_verification: false,
            }),
    {
        ValidationCancellation {
            before_parsing: false,
            after_parsing: false,
            before_verification: false,
            after_verification: false,
        }
    }
}

/// What validating a submission gives.
pub open spec fn submission_outcome(
    service: ServiceModel,
    proof: Seq<u8>,
    decoded: Option<DecodedModel>,
    started_at: i64,
    report: Result<BackendVerifierReport, BackendError>,
    cancellation: ValidationCancellation,
) -> Result<SubmissionModel, ServiceError> {
    match opening_outcome(service, proof, cancellation.before_parsing) {
        Err(error) => Err(error),
        Ok(envelope) => match admission_outcome(
            service,
            envelope,
            proof,
            decoded,
            started_at,
            cancellation.after_parsing,
            cancellation.before_verification,
        ) {
            Err(error) => Err(error),
            Ok(admitted) => conclusion(
                admitted,
                started_at,
                report,
                cancellation.after_verification,
            ),
        },
    }
}

/// What a service and its validated work put into a certificate.
pub open spec fn certified_payload(
    service: ServiceModel,
    submission: SubmissionModel,
    challenge: SignedChallengeModel,
    issued_at: i64,
) -> CertificateModel {
    CertificateModel {
        issuer: service.config.issuer,
        key_id: service.config.key_id,
        issued_at,
        challenge_digest: protocol::challenge_digest(challenge),
        problem_digest: problem::problem_digest(submission.artifact.statement.problem),
        manifest_digest: certificate::manifest_digest(submission.artifact.statement.manifest),
        proof_digest: artifact::artifact_digest(submission.artifact.encoded),
        protocol: submission.report.protocol,
        score: submission.report.score,
        validator_build: service.config.validator_build,
    }
}

/// What certifying validated work gives.
pub open spec fn certification(
    service: ServiceModel,
    submission: SubmissionModel,
    issued_at: i64,
) -> Result<SignedCertificateModel, ServiceError> {
    let challenge = submission.artifact.statement.challenge->0;
    let payload = certified_payload(service, submission, challenge, issued_at);
    if issued_at < submission.started_at {
        Err(ServiceError::CertificateBeforeValidation)
    } else if issued_at < challenge.payload.issued_at {
        Err(ServiceError::CertificateBeforeChallenge)
    } else if issued_at > challenge.payload.expires_at {
        Err(ServiceError::ChallengeExpiredDuringValidation)
    } else {
        match certificate::certificate_error(payload) {
            Some(error) => Err(ServiceError::Protocol { error }),
            None => Ok(
                SignedCertificateModel {
                    payload,
                    signature: signing::ed25519_signature(
                        service.seed,
                        certificate::certificate_message(payload),
                    ),
                },
            ),
        }
    }
}

/// A parsed submission whose provenance the service accepted, on its way to a
/// backend.
#[derive(Debug)]
pub struct AdmittedSubmission<'a> {
    prelude: ArtifactPrelude<'a>,
    started_at_unix_seconds: i64,
}

impl<'a> View for AdmittedSubmission<'a> {
    type V = ArtifactModel;

    closed spec fn view(&self) -> ArtifactModel {
        self.prelude@
    }
}

impl<'a> AdmittedSubmission<'a> {
    #[verifier::type_invariant]
    spec fn inv(self) -> bool {
        self.prelude@.statement.challenge is Some
    }

    /// When validation started.
    pub closed spec fn started_at(&self) -> i64 {
        self.started_at_unix_seconds
    }

    /// The artifact to verify, unless validation was cancelled meanwhile.
    pub fn verification_input(&self, cancelled: bool) -> (result: Result<
        &ArtifactPrelude<'a>,
        ServiceError,
    >)
        ensures
            (if cancelled {
                result matches Err(error) && error == ServiceError::ValidationCancelled
            } else {
                result matches Ok(prelude) && prelude@ == self@
            }),
    {
        match require_not_cancelled(cancelled) {
            Ok(_) => Ok(&self.prelude),
            Err(error) => Err(error),
        }
    }

    /// Takes up what the backend reported.
    pub fn conclude(
        self,
        report: Result<BackendVerifierReport, BackendError>,
        cancelled: bool,
    ) -> (result: Result<ValidatedSubmission, ServiceError>)
        ensures
            (match conclusion(self@, self.started_at(), report, cancelled) {
                Ok(expected) => result matches Ok(submission) && submission.validates(expected),
                Err(refused) => result matches Err(error) && error == refused,
            }),
    {
        proof {
            use_type_invariant(&self);
        }
        if cancelled {
            return Err(ServiceError::ValidationCancelled);
        }
        let report = match report {
            Ok(report) => report,
            Err(error) => {
                return Err(ServiceError::Backend { error });
            },
        };
        let summary = self.prelude.summary();
        match self.prelude.statement().challenge() {
            None => Err(ServiceError::SignedChallengeRequired),
            Some(challenge) => Ok(
                ValidatedSubmission {
                    output: ValidatedOutput { summary, report },
                    challenge_digest: challenge.digest(),
                    validation_started_at_unix_seconds: self.started_at_unix_seconds,
                    challenge_issued_at_unix_seconds: challenge.payload.issued_at_unix_seconds,
                    challenge_expires_at_unix_seconds: challenge.payload.expires_at_unix_seconds,
                },
            ),
        }
    }
}

#[derive(Clone, Copy, Debug, PartialEq, Eq)]
pub struct ValidatedOutput {
    pub summary: ArtifactSummary,
    /// Structurally and cryptographically verified backend output. Fast
    /// binary64 discrepancies remain diagnostics rather than a service-level
    /// quality decision.
    pub report: BackendVerifierReport,
}

impl ValidatedOutput {
    pub fn backend_report(&self) -> (report: &BackendVerifierReport)
        ensures
            *report == self.report,
    {
        &self.report
    }
}

/// Successfully validated work awaiting a post-validation service timestamp.
#[derive(Clone, Copy, Debug, PartialEq, Eq)]
pub struct ValidatedSubmission {
    output: ValidatedOutput,
    challenge_digest: Digest,
    validation_started_at_unix_seconds: i64,
    challenge_issued_at_unix_seconds: i64,
    challenge_expires_at_unix_seconds: i64,
}

impl ValidatedSubmission {
    /// Whether this is the record of a validated submission.
    pub closed spec fn validates(&self, submission: SubmissionModel) -> bool {
        &&& submission.artifact.statement.challenge matches Some(challenge)
        &&& artifact::summarizes(self.output.summary, submission.artifact)
        &&& self.output.report == submission.report
        &&& self.challenge_digest@ == protocol::challenge_digest(challenge)
        &&& self.validation_started_at_unix_seconds == submission.started_at
        &&& self.challenge_issued_at_unix_seconds == challenge.payload.issued_at
        &&& self.challenge_expires_at_unix_seconds == challenge.payload.expires_at
    }

    /// What was validated.
    pub fn output(&self) -> (output: &ValidatedOutput)
        ensures
            forall|submission: SubmissionModel| #[trigger]
                self.validates(submission) ==> artifact::summarizes(
                    output.summary,
                    submission.artifact,
                ) && output.report == submission.report,
    {
        &self.output
    }
}

#[derive(Debug, PartialEq, Eq)]
pub struct CertifiedValidation {
    pub certificate: SignedCertificate,
    pub output: ValidatedOutput,
}

fn require_not_cancelled(cancelled: bool) -> (result: Result<(), ServiceError>)
    ensures
        result == (if cancelled {
            Err::<(), ServiceError>(ServiceError::ValidationCancelled)
        } else {
            Ok(())
        }),
{
    if cancelled {
        return Err(ServiceError::ValidationCancelled);
    }
    Ok(())
}

fn require_configured_lifetime(issued_at: i64, expires_at: i64, configured_lifetime: i64) -> (
result: Result<(), ServiceError>)
    ensures
        result == (if expires_at - issued_at == configured_lifetime {
            Ok::<(), ServiceError>(())
        } else {
            Err(ServiceError::ChallengeLifetimeMismatch)
        }),
{
    let lifetime: i128 = expires_at as i128 - issued_at as i128;
    if lifetime != configured_lifetime as i128 {
        return Err(ServiceError::ChallengeLifetimeMismatch);
    }
    Ok(())
}

impl StatelessValidatorService {
    #[verifier::type_invariant]
    spec fn inv(self) -> bool {
        config_error(self.config@, Some(self.direct_payload_bytes)) is None
    }

    /// A service under a policy. `direct_payload_bytes` is the largest payload
    /// that the backend which carries complete solutions needs under the
    /// policy's element limit, if it admits that limit.
    pub fn new(
        config: ServiceConfig,
        signing_key: SigningKey,
        direct_payload_bytes: Option<usize>,
    ) -> (result: Result<StatelessValidatorService, ServiceError>)
        ensures
            (match config_error(config@, direct_payload_bytes) {
                Some(refused) => result matches Err(error) && error == refused,
                None => result matches Ok(service) && service@ == (ServiceModel {
                    config: config@,
                    direct_payload: direct_payload_bytes->0,
                    seed: signing_key@,
                }),
            }),
    {
        if config.challenge_lifetime_seconds <= 0 {
            return Err(
                ServiceError::InvalidConfiguration {
                    reason: "challenge lifetime must be positive",
                },
            );
        }
        if config.maximum_future_skew_seconds < 0 {
            return Err(
                ServiceError::InvalidConfiguration {
                    reason: "maximum future skew must not be negative",
                },
            );
        }
        if maximum_submission_bytes(
            config.maximum_solution_elements,
            direct_payload_bytes,
        ).is_none() {
            return Err(
                ServiceError::InvalidConfiguration {
                    reason: "maximum solution elements is outside backend bounds",
                },
            );
        }
        if config.maximum_public_matrix_terms == 0 || config.maximum_public_matrix_terms
            > MAX_PUBLIC_EVALUATION_TERMS_LIMIT || config.maximum_public_rhs_terms == 0
            || config.maximum_public_rhs_terms > MAX_PUBLIC_EVALUATION_TERMS_LIMIT {
            return Err(
                ServiceError::InvalidConfiguration {
                    reason: "public-evaluator term limits are outside protocol bounds",
                },
            );
        }
        if config.allowed_protocols.len() == 0 {
            return Err(
                ServiceError::InvalidConfiguration {
                    reason: "at least one proof protocol must be enabled",
                },
            );
        }
        if let Err(error) = validate_identifier("issuer", config.issuer.as_str()) {
            return Err(ServiceError::Protocol { error });
        }
        if let Err(error) = validate_identifier("key_id", config.key_id.as_str()) {
            return Err(ServiceError::Protocol { error });
        }
        if let Err(error) = validate_identifier(
            "validator_build",
            config.validator_build.as_str(),
        ) {
            return Err(ServiceError::Protocol { error });
        }
        match direct_payload_bytes {
            Some(payload) => Ok(
                StatelessValidatorService { config, direct_payload_bytes: payload, signing_key },
            ),
            None => Err(
                ServiceError::InvalidConfiguration {
                    reason: "maximum solution elements is outside backend bounds",
                },
            ),
        }
    }

    pub fn config(&self) -> (config: &ServiceConfig)
        ensures
            config@ == self@.config,
            config_error(self@.config, Some(self@.direct_payload)) is None,
    {
        proof {
            use_type_invariant(self);
        }
        &self.config
    }

    pub fn verifying_key(&self) -> (key: VerifyingKey)
        ensures
            key@ == signing::ed25519_public_key(self@.seed),
    {
        self.signing_key.verifying_key()
    }

    fn require_public_evaluation_terms(&self, terms: PublicEvaluationTerms) -> (result: Result<
        (),
        ServiceError,
    >)
        ensures
            result == (if terms.matrix_period_terms > self@.config.matrix_terms
                || terms.rhs_period_terms > self@.config.rhs_terms {
                Err::<(), ServiceError>(ServiceError::PublicEvaluationLimit)
            } else {
                Ok(())
            }),
    {
        if terms.matrix_period_terms > self.config.maximum_public_matrix_terms
            || terms.rhs_period_terms > self.config.maximum_public_rhs_terms {
            return Err(ServiceError::PublicEvaluationLimit);
        }
        Ok(())
    }

    pub fn issue_challenge(
        &self,
        template: &ProblemTemplate,
        entropy: Digest,
        now_unix_seconds: i64,
    ) -> (result: Result<SignedChallenge, ServiceError>)
        ensures
            (match issue_error(self@, template@, entropy@, now_unix_seconds) {
                Some(refused) => result matches Err(error) && error == refused,
                None => result matches Ok(challenge) && challenge@ == issued_challenge(
                    self@,
                    template@,
                    entropy@,
                    now_unix_seconds,
                ) && (challenge@.signature.take(32) != signing::neutral_point()
                    ==> signing::ed25519_accepts(
                    signing::ed25519_public_key(self@.seed),
                    protocol::challenge_message(challenge@.payload),
                    challenge@.signature,
                )),
            }),
    {
        proof {
            use_type_invariant(self);
        }
        let public_evaluation_terms = match template.public_evaluation_terms() {
            Ok(terms) => terms,
            Err(error) => {
                return Err(ServiceError::Problem { error });
            },
        };
        if !matches!(template.randomness, TemplateRandomness::ChallengeDerivedV1 { .. }) {
            return Err(ServiceError::ChallengeRequiresDerivedTemplate);
        }
        if template.dimension() > self.config.maximum_solution_elements {
            return Err(ServiceError::SolutionElementLimit);
        }
        if let Err(error) = self.require_public_evaluation_terms(public_evaluation_terms) {
            return Err(error);
        }
        if now_unix_seconds > i64::MAX - self.config.challenge_lifetime_seconds {
            return Err(
                ServiceError::InvalidConfiguration { reason: "challenge timestamp overflow" },
            );
        }
        let template_digest = match template.digest() {
            Ok(digest) => digest,
            Err(error) => {
                return Err(ServiceError::Problem { error });
            },
        };
        let payload = ChallengePayload {
            schema: ChallengeSchema::V1,
            issuer: text::copy_text(self.config.issuer.as_str()),
            key_id: text::copy_text(self.config.key_id.as_str()),
            issued_at_unix_seconds: now_unix_seconds,
            expires_at_unix_seconds: now_unix_seconds + self.config.challenge_lifetime_seconds,
            entropy,
            problem_template_digest: Digest::from_bytes(template_digest.into_bytes()),
            retry_policy: RetryPolicy::ReplayAllowedV1,
        };
        match SignedChallenge::sign(payload, &self.signing_key) {
            Ok(challenge) => Ok(challenge),
            Err(error) => Err(ServiceError::Protocol { error }),
        }
    }

    /// Opens a submission far enough to decode its statement text.
    pub fn open_submission<'a>(&self, proof_bytes: &'a [u8], cancelled: bool) -> (result: Result<
        ArtifactEnvelope<'a>,
        ServiceError,
    >)
        ensures
            problem::yields(result, opening_outcome(self@, proof_bytes@, cancelled)),
            result matches Ok(envelope) ==> envelope.wf() && envelope.opened() == proof_bytes@
                && envelope.applied() == admission_limits(self@),
    {
        if let Err(error) = require_not_cancelled(cancelled) {
            return Err(error);
        }
        let payload_limit: usize = if self.direct_payload_bytes > MAX_SUCCINCT_PAYLOAD_BYTES {
            self.direct_payload_bytes
        } else {
            MAX_SUCCINCT_PAYLOAD_BYTES
        };
        let limits = ArtifactResourceLimits::new(
            self.config.maximum_solution_elements,
            payload_limit,
            self.config.maximum_public_matrix_terms,
            self.config.maximum_public_rhs_terms,
        );
        match ArtifactEnvelope::open(
            proof_bytes,
            limits,
            self.config.allowed_protocols.as_slice(),
        ) {
            Ok(envelope) => Ok(envelope),
            Err(error) => Err(refused_artifact(error)),
        }
    }

    /// Checks where a parsed submission comes from.
    fn require_provenance(&self, prelude: &ArtifactPrelude<'_>, started_at: i64) -> (result: Result<
        (),
        ServiceError,
    >)
        ensures
            (match provenance_error(self@, prelude@, started_at) {
                Some(refused) => result matches Err(error) && error == refused,
                None => result is Ok && prelude@.statement.challenge is Some,
            }),
    {
        proof {
            use_type_invariant(self);
        }
        let statement = prelude.statement();
        let challenge = match statement.challenge() {
            Some(challenge) => challenge,
            None => {
                return Err(ServiceError::SignedChallengeRequired);
            },
        };
        if let Err(error) = challenge.verify(
            &self.verifying_key(),
            self.config.issuer.as_str(),
            self.config.key_id.as_str(),
            started_at,
            self.config.maximum_future_skew_seconds,
        ) {
            return Err(ServiceError::Protocol { error });
        }
        if let Err(error) = require_configured_lifetime(
            challenge.payload.issued_at_unix_seconds,
            challenge.payload.expires_at_unix_seconds,
            self.config.challenge_lifetime_seconds,
        ) {
            return Err(error);
        }
        if !statement.problem().randomness().is_challenge_derived() {
            return Err(ServiceError::SignedChallengeRequired);
        }
        let template_digest = match statement.problem().template().digest() {
            Ok(digest) => Digest::from_bytes(digest.into_bytes()),
            Err(error) => {
                return Err(ServiceError::Problem { error });
            },
        };
        if !challenge.payload.problem_template_digest.equals(&template_digest) {
            return Err(ServiceError::TemplateDigestMismatch);
        }
        let context = challenge.payload_canonical_bytes();
        match statement.problem().verify_challenge_context(context.as_slice()) {
            Ok(_) => Ok(()),
            Err(_) => Err(ServiceError::ProblemProvenanceMismatch),
        }
    }

    /// Parses an opened submission, given what its statement text decodes to,
    /// or nothing where it holds no statement.
    pub fn parse_submission<'a>(
        &self,
        envelope: ArtifactEnvelope<'a>,
        decoded: Option<DecodedStatement>,
    ) -> (result: Result<ArtifactPrelude<'a>, ServiceError>)
        requires
            envelope.wf(),
        ensures
            problem::yields(
                result,
                parsing_outcome(
                    envelope@,
                    envelope.opened(),
                    artifact::decoded_view(decoded),
                    envelope.applied(),
                ),
            ),
    {
        let decoded = match decoded {
            Some(decoded) => decoded,
            None => {
                return Err(refused_artifact(ValidationError::Json));
            },
        };
        match envelope.accept(decoded) {
            Ok(prelude) => Ok(prelude),
            Err(error) => Err(refused_artifact(error)),
        }
    }

    /// Checks where a parsed submission comes from, unless validation was
    /// cancelled meanwhile.
    pub fn check_provenance<'a>(
        &self,
        prelude: ArtifactPrelude<'a>,
        validation_started_at_unix_seconds: i64,
        cancelled: bool,
    ) -> (result: Result<AdmittedSubmission<'a>, ServiceError>)
        ensures
            problem::yields(
                result,
                provenance_outcome(
                    self@,
                    prelude@,
                    validation_started_at_unix_seconds,
                    cancelled,
                ),
            ),
            result matches Ok(admitted) ==> admitted.started_at()
                == validation_started_at_unix_seconds,
    {
        if let Err(error) = require_not_cancelled(cancelled) {
            return Err(error);
        }
        if let Err(error) = self.require_provenance(
            &prelude,
            validation_started_at_unix_seconds,
        ) {
            return Err(error);
        }
        Ok(
            AdmittedSubmission {
                prelude,
                started_at_unix_seconds: validation_started_at_unix_seconds,
            },
        )
    }

    /// Admits an opened submission to its backend in one go, given what each
    /// poll of the cancellation signal gives.
    pub fn admit_submission<'a>(
        &self,
        envelope: ArtifactEnvelope<'a>,
        decoded: Option<DecodedStatement>,
        validation_started_at_unix_seconds: i64,
        cancelled_after_parsing: bool,
        cancelled_before_verification: bool,
    ) -> (result: Result<AdmittedSubmission<'a>, ServiceError>)
        requires
            envelope.wf(),
            envelope.applied() == admission_limits(self@),
        ensures
            problem::yields(
                result,
                admission_outcome(
                    self@,
                    envelope@,
                    envelope.opened(),
                    artifact::decoded_view(decoded),
                    validation_started_at_unix_seconds,
                    cancelled_after_parsing,
                    cancelled_before_verification,
                ),
            ),
            result matches Ok(admitted) ==> admitted.started_at()
                == validation_started_at_unix_seconds,
    {
        let prelude = match self.parse_submission(envelope, decoded) {
            Ok(prelude) => prelude,
            Err(error) => {
                return Err(error);
            },
        };
        let admitted = match self.check_provenance(
            prelude,
            validation_started_at_unix_seconds,
            cancelled_after_parsing,
        ) {
            Ok(admitted) => admitted,
            Err(error) => {
                return Err(error);
            },
        };
        match admitted.verification_input(cancelled_before_verification) {
            Ok(_) => {},
            Err(error) => {
                return Err(error);
            },
        }
        Ok(admitted)
    }

    /// Validates a submission, given what its statement text decodes to and
    /// what its backend reports of it.
    pub fn validate_submission(
        &self,
        proof_bytes: &[u8],
        decoded: Option<DecodedStatement>,
        validation_started_at_unix_seconds: i64,
        report: Result<BackendVerifierReport, BackendError>,
    ) -> (result: Result<ValidatedSubmission, ServiceError>)
        ensures
            (match submission_outcome(
                self@,
                proof_bytes@,
                artifact::decoded_view(decoded),
                validation_started_at_unix_seconds,
                report,
                ValidationCancellation {
                    before_parsing: false,
                    after_parsing: false,
                    before_verification: false,
                    after_verification: false,
                },
            ) {
                Ok(expected) => result matches Ok(submission) && submission.validates(expected),
                Err(refused) => result matches Err(error) && error == refused,
            }),
    {
        self.validate_submission_with_cancellation(
            proof_bytes,
            decoded,
            validation_started_at_unix_seconds,
            report,
            ValidationCancellation::never(),
        )
    }

    /// Validates a submission under a cancellation signal, given also what each
    /// poll of the signal gives.
    pub fn validate_submission_with_cancellation(
        &self,
        proof_bytes: &[u8],
        decoded: Option<DecodedStatement>,
        validation_started_at_unix_seconds: i64,
        report: Result<BackendVerifierReport, BackendError>,
        cancellation: ValidationCancellation,
    ) -> (result: Result<ValidatedSubmission, ServiceError>)
        ensures
            (match submission_outcome(
                self@,
                proof_bytes@,
                artifact::decoded_view(decoded),
                validation_started_at_unix_seconds,
                report,
                cancellation,
            ) {
                Ok(expected) => result matches Ok(submission) && submission.validates(expected),
                Err(refused) => result matches Err(error) && error == refused,
            }),
    {
        let envelope = match self.open_submission(proof_bytes, cancellation.before_parsing) {
            Ok(envelope) => envelope,
            Err(error) => {
                return Err(error);
            },
        };
        match self.admit_submission(
            envelope,
            decoded,
            validation_started_at_unix_seconds,
            cancellation.after_parsing,
            cancellation.before_verification,
        ) {
            Ok(admitted) => admitted.conclude(report, cancellation.after_verification),
            Err(error) => Err(error),
        }
    }

    /// Validates an owned artifact without a cancellation source.
    ///
    /// Ownership lets an adapter move a request body onto a worker without
    /// first cloning it.
    pub fn validate_owned_submission(
        &self,
        proof_bytes: Vec<u8>,
        decoded: Option<DecodedStatement>,
        validation_started_at_unix_seconds: i64,
        report: Result<BackendVerifierReport, BackendError>,
    ) -> (result: Result<ValidatedSubmission, ServiceError>)
        ensures
            (match submission_outcome(
                self@,
                proof_bytes@,
                artifact::decoded_view(decoded),
                validation_started_at_unix_seconds,
                report,
                ValidationCancellation {
                    before_parsing: false,
                    after_parsing: false,
                    before_verification: false,
                    after_verification: false,
                },
            ) {
                Ok(expected) => result matches Ok(submission) && submission.validates(expected),
                Err(refused) => result matches Err(error) && error == refused,
            }),
    {
        self.validate_owned_submission_with_cancellation(
            proof_bytes,
            decoded,
            validation_started_at_unix_seconds,
            report,
            ValidationCancellation::never(),
        )
    }

    /// Validates an owned artifact under a cancellation signal.
    pub fn validate_owned_submission_with_cancellation(
        &self,
        proof_bytes: Vec<u8>,
        decoded: Option<DecodedStatement>,
        validation_started_at_unix_seconds: i64,
        report: Result<BackendVerifierReport, BackendError>,
        cancellation: ValidationCancellation,
    ) -> (result: Result<ValidatedSubmission, ServiceError>)
        ensures
            (match submission_outcome(
                self@,
                proof_bytes@,
                artifact::decoded_view(decoded),
                validation_started_at_unix_seconds,
                report,
                cancellation,
            ) {
                Ok(expected) => result matches Ok(submission) && submission.validates(expected),
                Err(refused) => result matches Err(error) && error == refused,
            }),
    {
        self.validate_submission_with_cancellation(
            proof_bytes.as_slice(),
            decoded,
            validation_started_at_unix_seconds,
            report,
            cancellation,
        )
    }

    pub fn certify(&self, validated: ValidatedSubmission, issued_at_unix_seconds: i64) -> (result:
        Result<CertifiedValidation, ServiceError>)
        ensures
            forall|submission: SubmissionModel| #[trigger]
                validated.validates(submission) ==> self.certifies(
                    submission,
                    issued_at_unix_seconds,
                    result,
                ),
    {
        if issued_at_unix_seconds < validated.validation_started_at_unix_seconds {
            return Err(ServiceError::CertificateBeforeValidation);
        }
        if issued_at_unix_seconds < validated.challenge_issued_at_unix_seconds {
            return Err(ServiceError::CertificateBeforeChallenge);
        }
        if issued_at_unix_seconds > validated.challenge_expires_at_unix_seconds {
            return Err(ServiceError::ChallengeExpiredDuringValidation);
        }
        let payload = CertificatePayload {
            schema: CertificateSchema::V3,
            issuer: text::copy_text(self.config.issuer.as_str()),
            key_id: text::copy_text(self.config.key_id.as_str()),
            issued_at_unix_seconds,
            challenge_digest: validated.challenge_digest,
            problem_digest: validated.output.summary.problem_digest,
            validation_manifest_digest: validated.output.summary.validation_manifest_digest,
            proof_digest: validated.output.summary.proof_digest,
            protocol: validated.output.report.protocol(),
            score: validated.output.report.certified_score(),
            validator_build: text::copy_text(self.config.validator_build.as_str()),
        };
        let ghost stated = payload@;
        proof {
            assert forall|submission: SubmissionModel| #[trigger]
                validated.validates(submission) implies stated == certified_payload(
                self@,
                submission,
                submission.artifact.statement.challenge->0,
                issued_at_unix_seconds,
            ) by {}
        }
        match SignedCertificate::sign(payload, &self.signing_key) {
            Ok(certificate) => Ok(CertifiedValidation { certificate, output: validated.output }),
            Err(error) => Err(ServiceError::Protocol { error }),
        }
    }

    /// Whether a result is what certifying a validated submission gives.
    pub open spec fn certifies(
        &self,
        submission: SubmissionModel,
        issued_at: i64,
        result: Result<CertifiedValidation, ServiceError>,
    ) -> bool {
        match certification(self@, submission, issued_at) {
            Err(refused) => result matches Err(error) && error == refused,
            Ok(expected) => {
                &&& result matches Ok(certified)
                &&& certified.certificate@ == expected
                &&& artifact::summarizes(certified.output.summary, submission.artifact)
                &&& certified.output.report == submission.report
                &&& expected.signature.take(32) != signing::neutral_point()
                    ==> signing::ed25519_accepts(
                    signing::ed25519_public_key(self@.seed),
                    certificate::certificate_message(expected.payload),
                    expected.signature,
                )
            },
        }
    }

    pub fn validate_and_certify(
        &self,
        proof_bytes: &[u8],
        decoded: Option<DecodedStatement>,
        validation_started_at_unix_seconds: i64,
        report: Result<BackendVerifierReport, BackendError>,
        validation_completed_at_unix_seconds: i64,
    ) -> (result: Result<CertifiedValidation, ServiceError>)
        ensures
            (match submission_outcome(
                self@,
                proof_bytes@,
                artifact::decoded_view(decoded),
                validation_started_at_unix_seconds,
                report,
                ValidationCancellation {
                    before_parsing: false,
                    after_parsing: false,
                    before_verification: false,
                    after_verification: false,
                },
            ) {
                Ok(submission) => self.certifies(
                    submission,
                    validation_completed_at_unix_seconds,
                    result,
                ),
                Err(refused) => result matches Err(error) && error == refused,
            }),
    {
        match self.validate_submission(
            proof_bytes,
            decoded,
            validation_started_at_unix_seconds,
            report,
        ) {
            Ok(validated) => self.certify(validated, validation_completed_at_unix_seconds),
            Err(error) => Err(error),
        }
    }
}

} // verus!
