//! Public statements: what every proof backend validates against.
//!
//! A backend receives a validated [`PublicStatement`] and only its own opaque
//! payload. It does not reparse application provenance, select a matrix family,
//! or invent resource policy.

use vstd::prelude::*;

use crate::bytes;
use crate::canonical;
use crate::canonical::{domain_separated_digest, DecodeError, Digest, Encoder};
use crate::certificate;
use crate::certificate::ValidationManifest;
use crate::evaluator::{PublicEvaluationPlan, SuccinctPublicEvaluator};
use crate::generated::GeneratedProblem;
use crate::generator;
use crate::generator::GeneratedModel;
use crate::powers;
use crate::problem;
use crate::problem::{FinalizedProblem, ProblemError, ProblemModel};
use crate::protocol;
use crate::protocol::{ProofProtocol, ProtocolError, SignedChallenge, SignedChallengeModel};
use crate::randomness::RandomnessModel;
use crate::solution::Solution;

verus! {

/// Domain of the digest that backends bind into their transcripts.
pub const STATEMENT_DIGEST_DOMAIN: &'static str = "sparse-solve/public-statement/v1";

/// Why the frames of a proof artifact were refused.
#[derive(Clone, Copy, Debug, PartialEq, Eq, Structural)]
pub enum FramingError {
    Decode { error: DecodeError },
    BadMagic,
    /// The challenge flag and the challenge frame disagree.
    ChallengeFlagMismatch,
    /// The canonical final proof frame is missing.
    MissingFinalFrame,
}

/// Why a statement or an artifact was refused.
#[derive(Clone, Copy, Debug, PartialEq, Eq)]
pub enum ValidationError {
    /// Invalid proof framing.
    Framing { error: FramingError },
    /// Unsupported container, frame, flag, or protocol version.
    UnsupportedVersion,
    /// The artifact exceeds a configured resource limit.
    ResourceLimit,
    /// The public problem is invalid.
    Problem { error: ProblemError },
    /// The validation manifest or the challenge frame is invalid.
    Manifest { error: ProtocolError },
    /// The signed problem-challenge payload is invalid.
    Challenge { error: ProtocolError },
    /// The public statement JSON is invalid.
    Json,
    /// The public statement JSON is not in its canonical compact encoding.
    NonCanonicalJson,
    /// The problem randomness and the signed challenge are inconsistent.
    ProblemChallengeMismatch,
    /// The proof header and the manifest select different backends.
    ProtocolMismatch,
    /// The admission policy does not enable the protocol.
    ProtocolNotAllowed { protocol: ProofProtocol },
    /// The problem dimension exceeds the element limit.
    DimensionLimit,
    /// The compiled public evaluator exceeds the term budget.
    PublicEvaluationLimit,
}

/// What a public statement says.
#[verifier::ext_equal]
pub struct StatementModel {
    pub problem: ProblemModel,
    pub generated: GeneratedModel,
    pub manifest: ValidationManifest,
    pub challenge: Option<SignedChallengeModel>,
}

/// The terms of one public matrix evaluation.
pub open spec fn matrix_terms(model: GeneratedModel) -> int {
    let padded = powers::padded(model.matrix.dimension()) as int;
    let terms = generator::evaluation_terms(model.matrix);
    if model.matrix is Tridiagonal && padded < terms {
        padded
    } else {
        terms
    }
}

/// The terms of one public right-hand-side evaluation.
pub open spec fn rhs_terms(model: GeneratedModel) -> int {
    let padded = powers::padded(model.matrix.dimension()) as int;
    if padded < model.rhs.period() {
        padded
    } else {
        model.rhs.period() as int
    }
}

/// Whether a signed challenge, or its absence, explains a problem's randomness.
pub open spec fn consistent_challenge(
    problem: ProblemModel,
    challenge: Option<SignedChallengeModel>,
) -> bool {
    match (problem.randomness, challenge) {
        (RandomnessModel::Literal { .. }, None) => true,
        (RandomnessModel::ChallengeDerived { context, .. }, Some(signed)) => {
            &&& signed.payload.template_digest == problem::template_digest(problem.template())
            &&& context == protocol::challenge_encoding(signed.payload)
        },
        _ => false,
    }
}

/// What stating a problem under a manifest and a challenge gives.
pub open spec fn statement_outcome(
    problem: ProblemModel,
    manifest: ValidationManifest,
    challenge: Option<SignedChallengeModel>,
) -> Result<StatementModel, ValidationError> {
    if let Some(error) = problem.error() {
        Err(ValidationError::Problem { error })
    } else if let Some(error) = certificate::manifest_error(manifest) {
        Err(ValidationError::Manifest { error })
    } else if challenge is Some && protocol::challenge_error(challenge->0.payload) is Some {
        Err(
            ValidationError::Challenge {
                error: protocol::challenge_error(challenge->0.payload)->0,
            },
        )
    } else if !consistent_challenge(problem, challenge) {
        Err(ValidationError::ProblemChallengeMismatch)
    } else if problem.matrix.dimension() > manifest.max_solution_elements {
        Err(ValidationError::DimensionLimit)
    } else {
        match generator::compiled_problem(problem) {
            Err(error) => Err(ValidationError::Problem { error }),
            Ok(generated) => if matrix_terms(generated) > manifest.max_public_matrix_terms
                || rhs_terms(generated) > manifest.max_public_rhs_terms {
                Err(ValidationError::PublicEvaluationLimit)
            } else {
                Ok(StatementModel { problem, generated, manifest, challenge })
            },
        }
    }
}

/// Whether a statement is one that validation accepted.
pub open spec fn valid_statement(statement: StatementModel) -> bool {
    statement_outcome(statement.problem, statement.manifest, statement.challenge) == Ok::<
        StatementModel,
        ValidationError,
    >(statement)
}

/// The digest that backends bind into their transcripts before any prover
/// message.
pub open spec fn statement_digest(statement: StatementModel) -> Seq<u8> {
    canonical::domain_digest(
        vstd::utf8::encode_utf8(STATEMENT_DIGEST_DOMAIN@),
        bytes::be_bytes(statement.manifest.protocol.id() as nat, 2) + problem::problem_digest(
            statement.problem,
        ) + certificate::manifest_digest(statement.manifest),
    )
}

/// The view of an optional challenge.
pub open spec fn challenge_view(challenge: Option<SignedChallenge>) -> Option<
    SignedChallengeModel,
> {
    match challenge {
        Some(signed) => Some(signed@),
        None => None,
    }
}

/// Validated public input shared by every proof backend.
#[derive(Debug)]
pub struct PublicStatement {
    problem: FinalizedProblem,
    generated: GeneratedProblem,
    manifest: ValidationManifest,
    challenge: Option<SignedChallenge>,
    problem_digest: Digest,
    manifest_digest: Digest,
}

impl View for PublicStatement {
    type V = StatementModel;

    closed spec fn view(&self) -> StatementModel {
        StatementModel {
            problem: self.problem@,
            generated: self.generated@,
            manifest: self.manifest,
            challenge: challenge_view(self.challenge),
        }
    }
}

fn validate_problem_challenge(problem: &FinalizedProblem, challenge: Option<&SignedChallenge>) -> (
result: Result<(), ValidationError>)
    requires
        problem@.error() is None,
    ensures
        ({
            let signed = match challenge {
                Some(signed) => Some(signed@),
                None => None,
            };
            result == (if consistent_challenge(problem@, signed) {
                Ok::<(), ValidationError>(())
            } else {
                Err(ValidationError::ProblemChallengeMismatch)
            })
        }),
{
    match challenge {
        None => if problem.randomness().is_challenge_derived() {
            Err(ValidationError::ProblemChallengeMismatch)
        } else {
            Ok(())
        },
        Some(signed) => {
            if !problem.randomness().is_challenge_derived() {
                return Err(ValidationError::ProblemChallengeMismatch);
            }
            let template_digest = match problem.template().digest() {
                Ok(digest) => Digest::from_bytes(digest.into_bytes()),
                Err(error) => {
                    return Err(ValidationError::Problem { error });
                },
            };
            if !signed.payload.problem_template_digest.equals(&template_digest) {
                return Err(ValidationError::ProblemChallengeMismatch);
            }
            let context = signed.payload_canonical_bytes();
            match problem.verify_challenge_context(context.as_slice()) {
                Ok(_) => Ok(()),
                Err(_) => Err(ValidationError::ProblemChallengeMismatch),
            }
        },
    }
}

impl PublicStatement {
    #[verifier::type_invariant]
    spec fn inv(self) -> bool {
        &&& valid_statement(self@)
        &&& self.problem_digest@ == problem::problem_digest(self.problem@)
        &&& self.manifest_digest@ == certificate::manifest_digest(self.manifest)
    }

    pub fn new(
        problem: FinalizedProblem,
        manifest: ValidationManifest,
        challenge: Option<SignedChallenge>,
    ) -> (result: Result<PublicStatement, ValidationError>)
        ensures
            problem::yields(
                result,
                statement_outcome(problem@, manifest, challenge_view(challenge)),
            ),
    {
        if let Err(error) = problem.validate() {
            return Err(ValidationError::Problem { error });
        }
        if let Err(error) = manifest.validate() {
            return Err(ValidationError::Manifest { error });
        }
        let supplied = challenge.as_ref();
        if let Some(signed) = supplied {
            if let Err(error) = signed.payload.validate() {
                return Err(ValidationError::Challenge { error });
            }
        }
        if let Err(error) = validate_problem_challenge(&problem, supplied) {
            return Err(error);
        }
        if problem.dimension() > manifest.max_solution_elements {
            return Err(ValidationError::DimensionLimit);
        }
        let generated = match problem.compile() {
            Ok(generated) => generated,
            Err(error) => {
                return Err(ValidationError::Problem { error });
            },
        };
        let evaluation = generated.public_evaluation_plan().metadata();
        if evaluation.matrix_period_terms as u64 > manifest.max_public_matrix_terms
            || evaluation.rhs_period_terms as u64 > manifest.max_public_rhs_terms {
            return Err(ValidationError::PublicEvaluationLimit);
        }
        let problem_digest = Digest::from_bytes(generated.problem_digest().into_bytes());
        let manifest_digest = match manifest.digest() {
            Ok(digest) => digest,
            Err(error) => {
                return Err(ValidationError::Manifest { error });
            },
        };
        Ok(
            PublicStatement {
                problem,
                generated,
                manifest,
                challenge,
                problem_digest,
                manifest_digest,
            },
        )
    }

    pub fn problem(&self) -> (problem: &FinalizedProblem)
        ensures
            problem@ == self@.problem,
            valid_statement(self@),
    {
        proof {
            use_type_invariant(self);
        }
        &self.problem
    }

    pub fn generated(&self) -> (generated: &GeneratedProblem)
        ensures
            generated@ == self@.generated,
            generator::compiled_problem(self@.problem) == Ok::<GeneratedModel, ProblemError>(
                generated@,
            ),
    {
        proof {
            use_type_invariant(self);
        }
        &self.generated
    }

    pub fn manifest(&self) -> (manifest: &ValidationManifest)
        ensures
            *manifest == self@.manifest,
            valid_statement(self@),
    {
        proof {
            use_type_invariant(self);
        }
        &self.manifest
    }

    pub fn challenge(&self) -> (challenge: Option<&SignedChallenge>)
        ensures
            (match challenge {
                Some(signed) => self@.challenge == Some(signed@),
                None => self@.challenge is None,
            }),
            valid_statement(self@),
    {
        proof {
            use_type_invariant(self);
        }
        self.challenge.as_ref()
    }

    pub fn problem_digest(&self) -> (digest: Digest)
        ensures
            digest@ == problem::problem_digest(self@.problem),
    {
        proof {
            use_type_invariant(self);
        }
        self.problem_digest
    }

    pub fn manifest_digest(&self) -> (digest: Digest)
        ensures
            digest@ == certificate::manifest_digest(self@.manifest),
    {
        proof {
            use_type_invariant(self);
        }
        self.manifest_digest
    }

    /// Digest bound into backend transcripts before any prover message.
    pub fn transcript_digest(&self) -> (digest: Digest)
        ensures
            digest@ == statement_digest(self@),
    {
        proof {
            use_type_invariant(self);
        }
        let mut encoded = Encoder::with_capacity(66);
        encoded.write_u16(self.manifest.protocol.wire_id());
        encoded.write_digest(&self.problem_digest);
        encoded.write_digest(&self.manifest_digest);
        let encoded = encoded.into_bytes();
        assert(encoded@ =~= bytes::be_bytes(self@.manifest.protocol.id() as nat, 2)
            + problem::problem_digest(self@.problem) + certificate::manifest_digest(
            self@.manifest,
        ));
        domain_separated_digest(STATEMENT_DIGEST_DOMAIN.as_bytes(), encoded.as_slice())
    }

    pub fn verifier_statement(&self) -> (statement: VerifierStatement<'_>)
        ensures
            statement@ == restricted(self@),
    {
        proof {
            use_type_invariant(self);
        }
        VerifierStatement {
            protocol: self.manifest.protocol,
            problem_digest: self.problem_digest,
            manifest_digest: self.manifest_digest,
            transcript_digest: self.transcript_digest(),
            dimension: self.generated.dimension(),
            public_evaluator: self.generated.public_evaluation_plan(),
        }
    }
}

impl Clone for PublicStatement {
    fn clone(&self) -> (copy: Self)
        ensures
            copy@ == self@,
    {
        proof {
            use_type_invariant(self);
        }
        let challenge = match &self.challenge {
            Some(signed) => Some(signed.clone()),
            None => None,
        };
        PublicStatement {
            problem: self.problem.clone(),
            generated: self.generated.clone(),
            manifest: self.manifest,
            challenge,
            problem_digest: self.problem_digest,
            manifest_digest: self.manifest_digest,
        }
    }
}

/// What a succinct validator sees of a statement.
#[verifier::ext_equal]
pub struct VerifierModel {
    pub protocol: ProofProtocol,
    pub problem_digest: Seq<u8>,
    pub manifest_digest: Seq<u8>,
    pub transcript_digest: Seq<u8>,
    pub dimension: nat,
    pub public: GeneratedModel,
}

/// The restricted view of a statement.
pub open spec fn restricted(statement: StatementModel) -> VerifierModel {
    VerifierModel {
        protocol: statement.manifest.protocol,
        problem_digest: problem::problem_digest(statement.problem),
        manifest_digest: certificate::manifest_digest(statement.manifest),
        transcript_digest: statement_digest(statement),
        dimension: statement.generated.matrix.dimension(),
        public: statement.generated,
    }
}

/// Restricted statement view supplied to succinct validators.
///
/// It deliberately exposes the generator-owned public evaluation capability but
/// no sparse row or right-hand-side entry. Provers retain
/// [`PublicStatement::generated`] for their allowed scans.
#[derive(Clone, Copy, Debug)]
pub struct VerifierStatement<'a> {
    protocol: ProofProtocol,
    problem_digest: Digest,
    manifest_digest: Digest,
    transcript_digest: Digest,
    dimension: usize,
    public_evaluator: PublicEvaluationPlan<'a>,
}

impl<'a> View for VerifierStatement<'a> {
    type V = VerifierModel;

    closed spec fn view(&self) -> VerifierModel {
        VerifierModel {
            protocol: self.protocol,
            problem_digest: self.problem_digest@,
            manifest_digest: self.manifest_digest@,
            transcript_digest: self.transcript_digest@,
            dimension: self.dimension as nat,
            public: self.public_evaluator.public(),
        }
    }
}

impl<'a> VerifierStatement<'a> {
    pub fn protocol(&self) -> (protocol: ProofProtocol)
        ensures
            protocol == self@.protocol,
    {
        self.protocol
    }

    pub fn problem_digest(&self) -> (digest: Digest)
        ensures
            digest@ == self@.problem_digest,
    {
        self.problem_digest
    }

    pub fn manifest_digest(&self) -> (digest: Digest)
        ensures
            digest@ == self@.manifest_digest,
    {
        self.manifest_digest
    }

    pub fn transcript_digest(&self) -> (digest: Digest)
        ensures
            digest@ == self@.transcript_digest,
    {
        self.transcript_digest
    }

    pub fn dimension(&self) -> (dimension: usize)
        ensures
            dimension == self@.dimension,
    {
        self.dimension
    }

    pub fn public_evaluator(&self) -> (evaluator: PublicEvaluationPlan<'a>)
        ensures
            evaluator.public() == self@.public,
    {
        self.public_evaluator
    }
}

/// Common proving and verification contract for a complete backend.
///
/// Commitment-first protocols may add [`PrecommitBackend`] when exposing the
/// commitment as a separate local computation stage is useful. Whether that
/// commitment is followed by Fiat-Shamir or interaction is a property of the
/// concrete backend, not of this layer.
pub trait ValidationBackend {
    type ProverContext;

    type ProverReport;

    type VerifierReport;

    type Error;

    const PROTOCOL: ProofProtocol;

    fn prove(
        statement: &PublicStatement,
        solution: &Solution,
        context: &Self::ProverContext,
    ) -> Result<(Vec<u8>, Self::ProverReport), Self::Error>;

    fn verify(statement: &VerifierStatement<'_>, payload: &[u8]) -> Result<
        Self::VerifierReport,
        Self::Error,
    >;
}

/// Contract for a deliberately non-succinct reference backend.
///
/// Reference validators are allowed to stream public matrix rows and
/// right-hand-side entries, so they receive the complete [`PublicStatement`].
/// Succinct backends implement [`ValidationBackend`] instead; its restricted
/// [`VerifierStatement`] rules out an accidental scan of the matrix.
pub trait ReferenceValidationBackend {
    type ProverContext;

    type ProverReport;

    type VerifierReport;

    type Error;

    const PROTOCOL: ProofProtocol;

    fn prove(
        statement: &PublicStatement,
        solution: &Solution,
        context: &Self::ProverContext,
    ) -> Result<(Vec<u8>, Self::ProverReport), Self::Error>;

    fn verify(statement: &PublicStatement, payload: &[u8]) -> Result<
        Self::VerifierReport,
        Self::Error,
    >;
}

/// Optional local lifecycle stage for protocols that commit before proving.
///
/// A commitment returned here need not cross a trust boundary. In particular, a
/// noninteractive backend can absorb it into its transcript and expose this
/// stage only for memory accounting, checkpointing, or tooling.
pub trait PrecommitBackend: ValidationBackend {
    type Commitment;

    type CommitmentReport;

    fn commit(statement: &PublicStatement, solution: &Solution) -> Result<
        (Self::Commitment, Self::CommitmentReport),
        Self::Error,
    >;
}

} // verus!
