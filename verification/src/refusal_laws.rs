//! What a refusal says: every fault is answered by an error of its own.

use vstd::prelude::*;

use crate::artifact;
use crate::artifact::{ArtifactModel, ArtifactResourceLimits, DecodedModel, EnvelopeModel};
use crate::binary64::Binary64;
use crate::bytes;
use crate::certificate;
use crate::certificate::{
    CertificateModel, CertifiedScore, SignedCertificateModel, ValidationManifest,
};
use crate::generator;
use crate::opening;
use crate::opening::{SchemeReadings, StreamsModel};
use crate::pcs;
use crate::pcs::{ClaimsModel, OpeningClaims, PcsError};
use crate::problem;
use crate::problem::{
    MatrixRecipe, ProblemError, ProblemModel, RequestedOutput, RhsSpec, TemplateModel,
};
use crate::protocol;
use crate::protocol::{ChallengeModel, ProofProtocol, ProtocolError, SignedChallengeModel};
use crate::randomness;
use crate::randomness::RandomnessModel;
use crate::service;
use crate::service::{
    BackendError, BackendVerifierReport, ConfigModel, ServiceError, ServiceModel, SubmissionModel,
    ValidationCancellation,
};
use crate::signing;
use crate::statement;
use crate::statement::{StatementModel, ValidationError};
use crate::terms;

verus! {

/// A challenge with proper identifiers is malformed by its times alone.
pub proof fn malformed_challenges_are_named(challenge: ChallengeModel)
    ensures
        !protocol::valid_identifier(challenge.issuer) ==> protocol::challenge_error(challenge)
            == Some(ProtocolError::InvalidIdentifier { field: "issuer" }),
        protocol::valid_identifier(challenge.issuer) && !protocol::valid_identifier(
            challenge.key_id,
        ) ==> protocol::challenge_error(challenge) == Some(
            ProtocolError::InvalidIdentifier { field: "key_id" },
        ),
        protocol::valid_identifier(challenge.issuer) && protocol::valid_identifier(
            challenge.key_id,
        ) ==> {
            &&& challenge.issued_at < 0 || challenge.expires_at < 0 ==> protocol::challenge_error(
                challenge,
            ) == Some(ProtocolError::NegativeTimestamp)
            &&& 0 <= challenge.expires_at <= challenge.issued_at ==> protocol::challenge_error(
                challenge,
            ) == Some(ProtocolError::InvalidChallengeWindow)
        },
{
}

/// A well-formed challenge is refused for another issuer, another key, a time of
/// issue in the future, its expiry, or its signature, in this order.
pub proof fn refused_challenges_are_named(
    challenge: SignedChallengeModel,
    key: Seq<u8>,
    issuer: Seq<char>,
    key_id: Seq<char>,
    now: i64,
    skew: i64,
)
    requires
        protocol::challenge_error(challenge.payload) is None,
    ensures
        ({
            let payload = challenge.payload;
            let refusal = protocol::challenge_refusal(challenge, key, issuer, key_id, now, skew);
            let timely = 0 <= now && 0 <= skew;
            let known = payload.issuer == issuer && payload.key_id == key_id;
            let begun = payload.issued_at <= now + skew;
            &&& now < 0 ==> refusal == Some(ProtocolError::NegativeTimestamp)
            &&& 0 <= now && skew < 0 ==> refusal == Some(ProtocolError::InvalidClockSkew)
            &&& timely && payload.issuer != issuer ==> refusal == Some(
                ProtocolError::IssuerMismatch,
            )
            &&& timely && payload.issuer == issuer && payload.key_id != key_id ==> refusal == Some(
                ProtocolError::KeyIdMismatch,
            )
            &&& timely && known && !begun ==> refusal == Some(ProtocolError::ChallengeFromFuture)
            &&& timely && known && begun && payload.expires_at < now ==> refusal == Some(
                ProtocolError::ChallengeExpired { at: payload.expires_at },
            )
            &&& timely && known && begun && now <= payload.expires_at
                && !signing::ed25519_accepts(
                key,
                protocol::challenge_message(payload),
                challenge.signature,
            ) ==> refusal == Some(ProtocolError::InvalidSignature)
        }),
{
}

/// A score that its protocol does not give is refused as such, and one that it
/// gives by what is wrong with its numbers.
pub proof fn refused_scores_are_named(score: CertifiedScore, selected: ProofProtocol)
    ensures
        match score {
            CertifiedScore::DirectBinary64ResidualV1 { residual } => {
                &&& selected != ProofProtocol::DirectReferenceV1 ==> certificate::score_error(
                    score,
                    selected,
                ) == Some(ProtocolError::ScoreProtocolMismatch)
                &&& selected == ProofProtocol::DirectReferenceV1 && certificate::residual_error(
                    residual,
                ) is Some ==> certificate::score_error(score, selected) == Some(
                    ProtocolError::InvalidResidual,
                )
            },
            CertifiedScore::ExactDyadicSquaredL2V1 { denominator_power, .. } => {
                &&& selected != ProofProtocol::WhirField192L2V4 ==> certificate::score_error(
                    score,
                    selected,
                ) == Some(ProtocolError::ScoreProtocolMismatch)
                &&& selected == ProofProtocol::WhirField192L2V4 && (denominator_power == 0
                    || denominator_power > 512) ==> certificate::score_error(score, selected)
                    == Some(ProtocolError::InvalidExactDenominator)
            },
            CertifiedScore::FastBinary64SquaredL2V1 { squared_l2, consistency } => {
                &&& selected != ProofProtocol::FastBinary64UnitCircleV3
                    ==> certificate::score_error(score, selected) == Some(
                    ProtocolError::ScoreProtocolMismatch,
                )
                &&& selected == ProofProtocol::FastBinary64UnitCircleV3
                    && certificate::valid_metric(squared_l2) && !certificate::valid_consistency(
                    consistency,
                ) ==> certificate::score_error(score, selected) == Some(
                    ProtocolError::InvalidFastConsistency,
                )
                &&& selected == ProofProtocol::FastBinary64UnitCircleV3
                    && !certificate::valid_metric(squared_l2) ==> certificate::score_error(
                    score,
                    selected,
                ) == Some(ProtocolError::InvalidResidual)
            },
        },
{
}

/// A valid certificate is refused for another issuer, another key or its
/// signature, in this order.
pub proof fn refused_certificates_are_named(
    signed: SignedCertificateModel,
    key: Seq<u8>,
    issuer: Seq<char>,
    key_id: Seq<char>,
)
    ensures
        ({
            let payload = signed.payload;
            let refusal = certificate::certificate_refusal(signed, key, issuer, key_id);
            let valid = certificate::certificate_error(payload) is None;
            &&& !valid ==> refusal == certificate::certificate_error(payload)
            &&& valid && payload.issuer != issuer ==> refusal == Some(
                ProtocolError::IssuerMismatch,
            )
            &&& valid && payload.issuer == issuer && payload.key_id != key_id ==> refusal == Some(
                ProtocolError::KeyIdMismatch,
            )
            &&& valid && payload.issuer == issuer && payload.key_id == key_id
                && !signing::ed25519_accepts(
                key,
                certificate::certificate_message(payload),
                signed.signature,
            ) ==> refusal == Some(ProtocolError::InvalidSignature)
        }),
{
}

/// A certificate with proper identifiers and score is malformed by a negative
/// time alone, and each improper identifier is named.
pub proof fn malformed_certificates_are_named(certified: CertificateModel)
    ensures
        ({
            let error = certificate::certificate_error(certified);
            let issuer = protocol::valid_identifier(certified.issuer);
            let key_id = protocol::valid_identifier(certified.key_id);
            let build = protocol::valid_identifier(certified.validator_build);
            &&& !issuer ==> error == Some(ProtocolError::InvalidIdentifier { field: "issuer" })
            &&& issuer && !key_id ==> error == Some(
                ProtocolError::InvalidIdentifier { field: "key_id" },
            )
            &&& issuer && key_id && !build ==> error == Some(
                ProtocolError::InvalidIdentifier { field: "validator_build" },
            )
            &&& issuer && key_id && build && certified.issued_at < 0 ==> error == Some(
                ProtocolError::NegativeTimestamp,
            )
            &&& issuer && key_id && build && 0 <= certified.issued_at ==> error
                == certificate::score_error(certified.score, certified.protocol)
        }),
{
}

/// A manifest is refused for its solution limit, or else for its term limits.
pub proof fn refused_manifests_are_named(manifest: ValidationManifest)
    ensures
        manifest.max_solution_elements == 0 || manifest.max_solution_elements > 0x4000_0000
            ==> certificate::manifest_error(manifest) == Some(ProtocolError::InvalidSolutionLimit),
        0 < manifest.max_solution_elements <= 0x4000_0000 && !(0 < manifest.max_public_matrix_terms
            <= 0x10_0000 && 0 < manifest.max_public_rhs_terms <= 0x10_0000)
            ==> certificate::manifest_error(manifest) == Some(
            ProtocolError::InvalidPublicEvaluationLimit,
        ),
{
}

/// A right-hand side is refused for its period, its scale, its range or its
/// magnitudes.
pub proof fn refused_rhs_are_named(
    period_bits: u8,
    fractional_bits: u8,
    minimum_mantissa: i64,
    maximum_mantissa: i64,
)
    ensures
        ({
            let error = problem::rhs_error(
                RhsSpec::SeededPeriodicDyadicV1 {
                    period_bits,
                    fractional_bits,
                    minimum_mantissa,
                    maximum_mantissa,
                },
            );
            let scaled = period_bits <= 16 && fractional_bits <= 52;
            &&& period_bits > 16 ==> error == Some(
                ProblemError::PeriodTooLarge { actual: period_bits },
            )
            &&& period_bits <= 16 && fractional_bits > 52 ==> error
                == Some(ProblemError::FractionalBitsTooLarge { actual: fractional_bits })
            &&& scaled && maximum_mantissa < minimum_mantissa ==> error == Some(
                ProblemError::InvalidRhsRange,
            )
            &&& scaled && maximum_mantissa - minimum_mantissa == u64::MAX ==> error == Some(
                ProblemError::RhsRangeTooWide,
            )
            &&& scaled && 0 <= maximum_mantissa - minimum_mantissa < u64::MAX && (
            minimum_mantissa < -0x1f_ffff_ffff_ffff || maximum_mantissa > 0x1f_ffff_ffff_ffff)
                ==> error == Some(ProblemError::RhsMagnitudeTooLarge)
        }),
{
}

/// A matrix of an invalid dimension is refused for it, and a tridiagonal one of a
/// valid dimension for its period, its scale, its range, its margin or its
/// magnitudes.
pub proof fn refused_tridiagonal_recipes_are_named(recipe: MatrixRecipe)
    requires
        recipe is Tridiagonal,
    ensures
        recipe matches MatrixRecipe::Tridiagonal {
            dimension,
            period_bits,
            fractional_bits,
            minimum,
            maximum,
            margin,
            ..
        } && {
            let error = problem::matrix_error(recipe);
            let sized = 2 <= dimension <= 0x4000_0000;
            let scaled = sized && period_bits <= 16 && fractional_bits <= 52;
            let ranged = scaled && 0 < minimum <= maximum;
            &&& !sized ==> error == Some(ProblemError::InvalidDimension { actual: dimension })
            &&& sized && period_bits > 16 ==> error == Some(
                ProblemError::PeriodTooLarge { actual: period_bits },
            )
            &&& sized && period_bits <= 16 && fractional_bits > 52 ==> error == Some(
                ProblemError::FractionalBitsTooLarge { actual: fractional_bits },
            )
            &&& scaled && !ranged ==> error == Some(ProblemError::InvalidOffDiagonalRange)
            &&& ranged && margin == 0 ==> error == Some(ProblemError::ZeroDominanceMargin)
            &&& ranged && 0 < margin && 4 * maximum + margin <= u64::MAX && 2 * maximum + margin
                > 0x1f_ffff_ffff_ffff ==> error == Some(ProblemError::CoefficientTooLarge)
        },
{
}

/// A shifted Laplacian of a valid dimension is refused for its scale, its shift,
/// the number of its edge diagonals, or its first faulty edge diagonal: for its
/// period, its offset, or its range.
pub proof fn refused_laplacian_recipes_are_named(recipe: MatrixRecipe, edge: int)
    requires
        recipe is DiaLaplacian,
        2 <= recipe.dimension() <= 0x4000_0000,
    ensures
        recipe matches MatrixRecipe::DiaLaplacian { dimension, fractional_bits, shift, edges, .. }
            && {
            let error = problem::matrix_error(recipe);
            let scaled = fractional_bits <= 52;
            let counted = scaled && 0 < shift && 0 < edges.len() <= 127;
            let first = counted && 0 <= edge < edges.len() && problem::edges_error(
                edges,
                dimension,
                edge as nat,
            ) is None;
            let placed = edges[edge].period_bits <= 16 && 0 < edges[edge].positive_offset
                < dimension && (edge > 0 ==> edges[edge - 1].positive_offset
                < edges[edge].positive_offset);
            &&& !scaled ==> error == Some(
                ProblemError::FractionalBitsTooLarge { actual: fractional_bits },
            )
            &&& scaled && shift == 0 ==> error == Some(ProblemError::ZeroDominanceMargin)
            &&& scaled && 0 < shift && !counted ==> error == Some(
                ProblemError::InvalidEdgeDiagonals,
            )
            &&& first && edges[edge].period_bits > 16 ==> error == Some(
                ProblemError::PeriodTooLarge { actual: edges[edge].period_bits },
            )
            &&& first && edges[edge].period_bits <= 16 && !placed ==> error == Some(
                ProblemError::InvalidEdgeDiagonals,
            )
            &&& first && placed && !(0 < edges[edge].minimum_weight_mantissa
                <= edges[edge].maximum_weight_mantissa) ==> error == Some(
                ProblemError::InvalidOffDiagonalRange,
            )
        },
{
    if let MatrixRecipe::DiaLaplacian { dimension, edges, .. } = recipe {
        if 0 <= edge < edges.len() && problem::edges_error(edges, dimension, edge as nat) is None
            && problem::edge_error(edges, dimension, edge) is Some {
            lemma_first_edge(edges, dimension, edge, edges.len());
        }
    }
}

proof fn lemma_first_edge(
    edges: Seq<problem::SymmetricDiaEdge>,
    dimension: u64,
    edge: int,
    count: nat,
)
    requires
        0 <= edge < count <= edges.len(),
        problem::edges_error(edges, dimension, edge as nat) is None,
        problem::edge_error(edges, dimension, edge) is Some,
    ensures
        problem::edges_error(edges, dimension, count) == problem::edge_error(
            edges,
            dimension,
            edge,
        ),
    decreases count,
{
    if edge < count - 1 {
        lemma_first_edge(edges, dimension, edge, (count - 1) as nat);
    }
}

/// A recipe for generated rows is refused for its period, its scale, its
/// sparsity, its range or its magnitudes.
pub proof fn refused_row_recipes_are_named(recipe: MatrixRecipe)
    requires
        recipe is RowSparse,
        2 <= recipe.dimension() <= 0x4000_0000,
    ensures
        recipe matches MatrixRecipe::RowSparse {
            dimension,
            row_pattern_bits,
            half_bandwidth,
            row_width,
            fractional_bits,
            minimum,
            maximum,
            ..
        } && {
            let error = problem::matrix_error(recipe);
            let scaled = row_pattern_bits <= 16 && fractional_bits <= 52;
            let sparse = scaled && half_bandwidth < dimension && 0 < row_width && row_width - 1 <= 2
                * half_bandwidth;
            let ranged = sparse && minimum <= maximum && !(minimum == 0 && maximum == 0);
            &&& row_pattern_bits > 16 ==> error == Some(
                ProblemError::PeriodTooLarge { actual: row_pattern_bits },
            )
            &&& row_pattern_bits <= 16 && !scaled ==> error == Some(
                ProblemError::FractionalBitsTooLarge { actual: fractional_bits },
            )
            &&& scaled && !sparse ==> error == Some(ProblemError::InvalidRowSparsity)
            &&& sparse && !ranged ==> error == Some(ProblemError::InvalidCoefficientRange)
            &&& ranged && (minimum < -0x1f_ffff_ffff_ffff || maximum > 0x1f_ffff_ffff_ffff)
                ==> error == Some(ProblemError::CoefficientTooLarge)
        },
{
}

/// A template with proper parts asks for exactly one output.
pub proof fn refused_outputs_are_named(template: TemplateModel)
    ensures
        template.outputs.len() > 8 ==> template.error() == Some(
            ProblemError::TooManyRequestedOutputs { actual: template.outputs.len() as usize },
        ),
        template.outputs.len() <= 8 && template.outputs
            != seq![RequestedOutput::SquaredL2ResidualV1] ==> template.error() == Some(
            ProblemError::InvalidRequestedOutputs,
        ),
{
}

/// A record that does not fit the problem is refused for the first part that does
/// not: the template's digest, the context's length, its digest, or the seed.
pub proof fn tampered_records_are_named(finalized: ProblemModel)
    requires
        finalized.template().error() is None,
        finalized.randomness is ChallengeDerived,
    ensures
        finalized.randomness matches RandomnessModel::ChallengeDerived {
            template_digest,
            context,
            context_digest,
            seed,
            ..
        } && {
            let error = finalized.error();
            let traced = template_digest == problem::template_digest(finalized.template());
            let short = traced && context.len() <= 65536;
            let digested = short && context_digest == randomness::context_digest_bytes(context);
            &&& !traced ==> error is Some && error->0 is TemplateDigestMismatch
            &&& traced && !short ==> error == Some(ProblemError::ChallengeContextTooLarge)
            &&& short && !digested ==> error == Some(ProblemError::ChallengeContextDigestMismatch)
            &&& digested && seed != randomness::instance_seed_bytes(template_digest, context)
                ==> error == Some(ProblemError::DerivedSeedMismatch)
        },
{
}

/// A valid template is finalized unless a literal one is given a context, or a
/// derived one a context that is too long.
pub proof fn refused_finalizations_are_named(template: TemplateModel, context: Seq<u8>)
    ensures
        template.error() matches Some(error) ==> problem::finalized(template, context) == Err::<
            ProblemModel,
            ProblemError,
        >(error),
        template.error() is None && template.randomness is Literal && context.len() > 0
            ==> problem::finalized(template, context) == Err::<ProblemModel, ProblemError>(
            ProblemError::UnexpectedChallengeContext,
        ),
        template.error() is None && template.randomness is ChallengeDerived && context.len()
            > 65536 ==> problem::finalized(template, context)
            == Err::<ProblemModel, ProblemError>(ProblemError::ChallengeContextTooLarge),
{
}

/// A statement is refused for its problem, its manifest, its challenge, how the
/// challenge explains the problem, its dimension, or its terms, in this order.
pub proof fn refused_statements_are_named(
    finalized: ProblemModel,
    manifest: ValidationManifest,
    challenge: Option<SignedChallengeModel>,
)
    ensures
        ({
            let outcome = statement::statement_outcome(finalized, manifest, challenge);
            let proper = finalized.error() is None && certificate::manifest_error(manifest) is None;
            let challenged = proper && (challenge matches Some(signed)
                ==> protocol::challenge_error(signed.payload) is None);
            let explained = challenged && statement::consistent_challenge(finalized, challenge);
            let sized = explained && finalized.matrix.dimension() <= manifest.max_solution_elements;
            &&& finalized.error() is Some ==> outcome == Err::<StatementModel, ValidationError>(
                ValidationError::Problem { error: finalized.error()->0 },
            )
            &&& finalized.error() is None && !proper ==> outcome == Err::<
                StatementModel,
                ValidationError,
            >(ValidationError::Manifest { error: certificate::manifest_error(manifest)->0 })
            &&& proper && !challenged ==> outcome == Err::<StatementModel, ValidationError>(
                ValidationError::Challenge {
                    error: protocol::challenge_error(challenge->0.payload)->0,
                },
            )
            &&& challenged && !explained ==> outcome == Err::<StatementModel, ValidationError>(
                ValidationError::ProblemChallengeMismatch,
            )
            &&& explained && !sized ==> outcome == Err::<StatementModel, ValidationError>(
                ValidationError::DimensionLimit,
            )
            &&& sized && generator::compiled_problem(finalized) is Ok && outcome is Err
                ==> outcome == Err::<StatementModel, ValidationError>(
                ValidationError::PublicEvaluationLimit,
            )
        }),
{
}

/// An opened artifact is refused for its text, its protocol, its dimension limit,
/// its term limits or its statement, in this order.
pub proof fn refused_artifacts_are_named(
    envelope: EnvelopeModel,
    encoded: Seq<u8>,
    decoded: DecodedModel,
    limits: ArtifactResourceLimits,
)
    ensures
        ({
            let outcome = artifact::accept_outcome(envelope, encoded, decoded, limits);
            let spelled = decoded.problem_json == envelope.problem_json && decoded.manifest_json
                == envelope.manifest_json;
            let agreed = spelled && decoded.manifest.protocol == envelope.protocol;
            let sized = agreed && decoded.manifest.max_solution_elements
                <= limits.maximum_solution_elements;
            let limited = sized && decoded.manifest.max_public_matrix_terms
                <= limits.maximum_public_matrix_terms && decoded.manifest.max_public_rhs_terms
                <= limits.maximum_public_rhs_terms;
            let stated = statement::statement_outcome(
                decoded.problem,
                decoded.manifest,
                envelope.challenge,
            );
            &&& !spelled ==> outcome == Err::<ArtifactModel, ValidationError>(
                ValidationError::NonCanonicalJson,
            )
            &&& spelled && !agreed ==> outcome == Err::<ArtifactModel, ValidationError>(
                ValidationError::ProtocolMismatch,
            )
            &&& agreed && !sized ==> outcome == Err::<ArtifactModel, ValidationError>(
                ValidationError::DimensionLimit,
            )
            &&& sized && !limited ==> outcome == Err::<ArtifactModel, ValidationError>(
                ValidationError::PublicEvaluationLimit,
            )
            &&& limited && stated is Err ==> outcome == Err::<ArtifactModel, ValidationError>(
                stated->Err_0,
            )
        }),
{
}

/// A service with proper identifiers refuses a template for its own error, for
/// fixed randomness, for its dimension, for its terms, or for a time of issue
/// that leaves no room for the lifetime or lies before the epoch.
pub proof fn refused_requests_are_named(
    service: ServiceModel,
    template: TemplateModel,
    entropy: Seq<u8>,
    now: i64,
)
    requires
        protocol::valid_identifier(service.config.issuer),
        protocol::valid_identifier(service.config.key_id),
        0 < service.config.lifetime,
    ensures
        ({
            let error = service::issue_error(service, template, entropy, now);
            let config = service.config;
            let derived = template.error() is None && template.randomness is ChallengeDerived;
            let sized = derived && template.matrix.dimension() <= config.elements;
            let limited = sized && terms::recipe_matrix_terms(template.matrix)
                <= config.matrix_terms && terms::recipe_rhs_terms(
                template.rhs,
                template.matrix.dimension(),
            ) <= config.rhs_terms;
            &&& template.error() is Some ==> error == Some(
                ServiceError::Problem { error: template.error()->0 },
            )
            &&& template.error() is None && !derived ==> error == Some(
                ServiceError::ChallengeRequiresDerivedTemplate,
            )
            &&& derived && !sized ==> error == Some(ServiceError::SolutionElementLimit)
            &&& sized && !limited ==> error == Some(ServiceError::PublicEvaluationLimit)
            &&& limited && now + config.lifetime > i64::MAX ==> error is Some && error->0
                is InvalidConfiguration
            &&& limited && now < 0 ==> error == Some(
                ServiceError::Protocol { error: ProtocolError::NegativeTimestamp },
            )
        }),
{
}

/// A submission is refused for a missing challenge, for what is wrong with it, or
/// for a lifetime that the service does not give.
pub proof fn refused_provenance_is_named(
    service: ServiceModel,
    parsed: ArtifactModel,
    started_at: i64,
)
    ensures
        ({
            let error = service::provenance_error(service, parsed, started_at);
            match parsed.statement.challenge {
                None => error == Some(ServiceError::SignedChallengeRequired),
                Some(challenge) => {
                    let refusal = protocol::challenge_refusal(
                        challenge,
                        signing::ed25519_public_key(service.seed),
                        service.config.issuer,
                        service.config.key_id,
                        started_at,
                        service.config.skew,
                    );
                    &&& refusal is Some ==> error == Some(
                        ServiceError::Protocol { error: refusal->0 },
                    )
                    &&& refusal is None && challenge.payload.expires_at
                        - challenge.payload.issued_at != service.config.lifetime ==> error == Some(
                        ServiceError::ChallengeLifetimeMismatch,
                    )
                },
            }
        }),
{
}

/// A certificate is refused where it would lie before the validation, before the
/// challenge or after its expiry.
pub proof fn refused_certifications_are_named(
    service: ServiceModel,
    submission: SubmissionModel,
    issued_at: i64,
)
    requires
        submission.artifact.statement.challenge is Some,
    ensures
        ({
            let outcome = service::certification(service, submission, issued_at);
            let challenge = submission.artifact.statement.challenge->0.payload;
            &&& issued_at < submission.started_at ==> outcome == Err::<
                SignedCertificateModel,
                ServiceError,
            >(ServiceError::CertificateBeforeValidation)
            &&& submission.started_at <= issued_at < challenge.issued_at ==> outcome == Err::<
                SignedCertificateModel,
                ServiceError,
            >(ServiceError::CertificateBeforeChallenge)
            &&& submission.started_at <= issued_at && challenge.issued_at <= issued_at
                && challenge.expires_at < issued_at ==> outcome == Err::<
                SignedCertificateModel,
                ServiceError,
            >(ServiceError::ChallengeExpiredDuringValidation)
        }),
{
}

/// Work that would be validated is answered as cancelled whenever any poll says
/// so.
pub proof fn cancelled_work_is_answered_as_cancelled(
    service: ServiceModel,
    proof_bytes: Seq<u8>,
    decoded: Option<DecodedModel>,
    started_at: i64,
    report: Result<BackendVerifierReport, BackendError>,
    polls: ValidationCancellation,
)
    requires
        service::submission_outcome(
            service,
            proof_bytes,
            decoded,
            started_at,
            report,
            ValidationCancellation {
                before_parsing: false,
                after_parsing: false,
                before_verification: false,
                after_verification: false,
            },
        ) is Ok,
    ensures
        polls.before_parsing || polls.after_parsing || polls.before_verification
            || polls.after_verification ==> service::submission_outcome(
            service,
            proof_bytes,
            decoded,
            started_at,
            report,
            polls,
        ) == Err::<SubmissionModel, ServiceError>(ServiceError::ValidationCancelled),
{
}

/// A service answers a protocol that it does not allow by name, every other
/// refusal of an artifact as such, and reads under its own limits.
pub proof fn artifacts_are_read_under_the_policy(
    service: ServiceModel,
    proof_bytes: Seq<u8>,
    selected: ProofProtocol,
)
    ensures
        service::artifact_answer(ValidationError::ProtocolNotAllowed { protocol: selected }) == (
        ServiceError::ProtocolNotAllowed { protocol: selected }),
        service::artifact_answer(ValidationError::NonCanonicalJson) == (ServiceError::Artifact {
            error: ValidationError::NonCanonicalJson,
        }),
        service::opening_outcome(service, proof_bytes, true) == Err::<EnvelopeModel, ServiceError>(
            ServiceError::ValidationCancelled,
        ),
        ({
            let limits = service::admission_limits(service);
            &&& limits.maximum_solution_elements == service.config.elements
            &&& limits.maximum_public_matrix_terms == service.config.matrix_terms
            &&& limits.maximum_public_rhs_terms == service.config.rhs_terms
            &&& service.direct_payload <= limits.maximum_payload_bytes
            &&& artifact::MAX_SUCCINCT_PAYLOAD_BYTES <= limits.maximum_payload_bytes
            &&& limits.maximum_payload_bytes == service.direct_payload
                || limits.maximum_payload_bytes == artifact::MAX_SUCCINCT_PAYLOAD_BYTES
        }),
{
}

/// A submission may be as long as the longest artifact that the limits admit, and
/// no longer.
pub proof fn submission_caps_are_exact(elements: u64, direct_payload: usize)
    ensures
        service::submission_cap(elements, None) is None,
        service::submission_cap(elements, Some(direct_payload)) matches Some(cap) ==> {
            let direct = protocol::MAX_CHALLENGE_BYTES + artifact::MAX_PUBLIC_STATEMENT_BYTES
                + direct_payload + 128;
            &&& 0 < elements <= 0x4000_0000
            &&& direct <= cap
            &&& artifact::MAX_SUCCINCT_ARTIFACT_BYTES <= cap
            &&& cap == direct || cap == artifact::MAX_SUCCINCT_ARTIFACT_BYTES
        },
        0 < elements <= 0x4000_0000 && elements <= usize::MAX && direct_payload <= 0x2000_0000
            ==> service::submission_cap(elements, Some(direct_payload)) is Some,
{
}

/// A configuration is refused by naming an identifier, or by a reason.
pub proof fn refused_configurations_are_named(config: ConfigModel, direct_payload: Option<usize>)
    ensures
        ({
            let error = service::config_error(config, direct_payload);
            let issuer = protocol::valid_identifier(config.issuer);
            let key_id = protocol::valid_identifier(config.key_id);
            &&& config.lifetime <= 0 || config.skew < 0 || config.allowed.len() == 0 ==> error
                is Some && error->0 is InvalidConfiguration
            &&& error matches Some(ServiceError::Protocol { error: refused }) ==> refused == (
            ProtocolError::InvalidIdentifier {
                field: if !issuer {
                    "issuer"
                } else if !key_id {
                    "key_id"
                } else {
                    "validator_build"
                },
            })
        }),
{
}

/// A proof that was cut short is refused as truncated, one that goes on as
/// trailing, and one over the limit as too large.
pub proof fn mangled_proofs_are_named(streams: StreamsModel, extra: Seq<u8>, kept: int, limit: usize)
    requires
        opening::certificate_length(streams) <= usize::MAX,
        0 < extra.len() <= usize::MAX,
        0 <= kept < opening::certificate_length(streams),
    ensures
        opening::certificate_length(streams) <= limit ==> {
            &&& opening::certificate_outcome(opening::certificate_bytes(streams).take(kept), limit)
                == Err::<StreamsModel, PcsError>(PcsError::TruncatedCertificate)
            &&& opening::certificate_outcome(opening::certificate_bytes(streams) + extra, limit)
                == Err::<StreamsModel, PcsError>(
                PcsError::TrailingCertificateBytes { trailing: extra.len() as usize },
            )
        },
        limit < opening::certificate_length(streams) ==> opening::certificate_outcome(
            opening::certificate_bytes(streams),
            limit,
        ) == Err::<StreamsModel, PcsError>(
            PcsError::CertificateTooLarge {
                maximum: limit,
                actual: opening::certificate_length(streams) as usize,
            },
        ),
{
    let encoded = opening::certificate_bytes(streams);
    let narg = streams.narg_string.len();
    let hints = streams.hints.len();
    bytes::lemma_byte_powers();
    opening::lemma_le_round_trip(pcs::CERTIFICATE_MAGIC as nat, 8);
    opening::lemma_le_round_trip(pcs::CERTIFICATE_VERSION as nat, 2);
    opening::lemma_le_round_trip(narg, 8);
    opening::lemma_le_round_trip(hints, 8);
    let longer = encoded + extra;
    let shorter = encoded.take(kept);
    assert(encoded.subrange(0, 8) =~= bytes::le_bytes(
        pcs::CERTIFICATE_MAGIC as nat,
        8,
    ));
    assert(encoded.subrange(8, 10) =~= bytes::le_bytes(
        pcs::CERTIFICATE_VERSION as nat,
        2,
    ));
    assert(encoded.subrange(10, 18) =~= bytes::le_bytes(narg, 8));
    assert(encoded.subrange(18, 26) =~= bytes::le_bytes(hints, 8));
    assert(longer.subrange(0, 8) =~= encoded.subrange(0, 8));
    assert(longer.subrange(8, 10) =~= encoded.subrange(8, 10));
    assert(longer.subrange(10, 18) =~= encoded.subrange(10, 18));
    assert(longer.subrange(18, 26) =~= encoded.subrange(18, 26));
    if kept >= 26 {
        assert(shorter.subrange(0, 8) =~= encoded.subrange(0, 8));
        assert(shorter.subrange(8, 10) =~= encoded.subrange(8, 10));
        assert(shorter.subrange(10, 18) =~= encoded.subrange(10, 18));
        assert(shorter.subrange(18, 26) =~= encoded.subrange(18, 26));
    }
}

proof fn lemma_first_point(points: Seq<Seq<nat>>, variables: nat, index: int, count: nat)
    requires
        0 <= index < count <= points.len(),
        points[index].len() != variables,
        forall|before: int| 0 <= before < index ==> (#[trigger] points[before]).len() == variables,
    ensures
        pcs::points_error(points, variables, index as nat) is None,
        pcs::points_error(points, variables, count) == Some(
            PcsError::WrongPointDimension {
                index: index as usize,
                expected: variables as usize,
                actual: points[index].len() as usize,
            },
        ),
    decreases count, index,
{
    lemma_no_point(points, variables, index as nat);
    if index < count - 1 {
        lemma_first_point(points, variables, index, (count - 1) as nat);
    }
}

proof fn lemma_no_point(points: Seq<Seq<nat>>, variables: nat, count: nat)
    requires
        count <= points.len(),
        forall|before: int| 0 <= before < count ==> (#[trigger] points[before]).len() == variables,
    ensures
        pcs::points_error(points, variables, count) is None,
    decreases count,
{
    if count > 0 {
        lemma_no_point(points, variables, (count - 1) as nat);
        assert(points[count - 1].len() == variables);
    }
}

/// Openings are refused where there are none, at the first point of another
/// dimension, or for the number of their values.
pub proof fn refused_openings_are_named(
    variables: nat,
    batch_size: usize,
    claims: ClaimsModel,
    computed_security: Binary64,
    index: int,
)
    ensures
        claims.points.len() == 0 ==> pcs::claims_error(
            variables,
            batch_size,
            claims,
            computed_security,
        ) == Some(PcsError::NoOpeningPoints),
        0 <= index < claims.points.len() && claims.points[index].len() != variables && (forall|
            before: int,
        |
            0 <= before < index ==> (#[trigger] claims.points[before]).len() == variables)
            ==> pcs::claims_error(variables, batch_size, claims, computed_security) == Some(
            PcsError::WrongPointDimension {
                index: index as usize,
                expected: variables as usize,
                actual: claims.points[index].len() as usize,
            },
        ),
        pcs::openings_error(variables, claims.points, computed_security) is None
            && claims.points.len() * batch_size <= usize::MAX && claims.evaluations.len()
            != claims.points.len() * batch_size ==> pcs::claims_error(
            variables,
            batch_size,
            claims,
            computed_security,
        ) == Some(
            PcsError::WrongEvaluationCount {
                expected: (claims.points.len() * batch_size) as usize,
                actual: claims.evaluations.len() as usize,
            },
        ),
{
    if 0 <= index < claims.points.len() && claims.points[index].len() != variables && (forall|
        before: int,
    |
        0 <= before < index ==> (#[trigger] claims.points[before]).len() == variables) {
        lemma_first_point(claims.points, variables, index, claims.points.len());
    }
}

/// A verification with proper claims is refused for a missing or another digest,
/// or because the scheme does not accept.
pub proof fn refused_verifications_are_named(
    vector_len: usize,
    batch_size: usize,
    certificate: StreamsModel,
    readings: SchemeReadings,
    claims: OpeningClaims,
)
    requires
        readings.claims == Ok::<OpeningClaims, String>(claims),
        pcs::claims_error(
            pcs::exponent_of(vector_len as nat),
            batch_size,
            claims@,
            readings.computed_security,
        ) is None,
    ensures
        ({
            let error = opening::verification_error(vector_len, batch_size, certificate, readings);
            let expected = pcs::opening_digest(vector_len, batch_size, claims@);
            &&& !readings.commitment_received || readings.received_digest is None ==> error == Some(
                PcsError::Verification,
            )
            &&& readings.commitment_received && readings.received_digest is Some
                && readings.received_digest->0@ != expected ==> error == Some(
                PcsError::OpeningStatementDigestMismatch,
            )
            &&& readings.commitment_received && readings.received_digest is Some
                && readings.received_digest->0@ == expected && !readings.accepted ==> error == Some(
                PcsError::Verification,
            )
        }),
{
}

} // verus!
