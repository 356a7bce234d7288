//! Deterministic sparse linear-system problems, their exact relations, and the
//! bounded formats in which solutions are submitted, validated and certified.

pub mod artifact;
pub mod artifact_laws;
pub mod binary64;
pub mod bound_laws;
pub mod bytes;
pub mod canonical;
pub mod certificate;
pub mod certificate_laws;
pub mod compile_laws;
pub mod compiled;
pub mod digest_laws;
pub mod evaluation;
pub mod evaluator;
pub mod evaluator_laws;
pub mod field;
pub mod generated;
pub mod generator;
pub mod hashing;
pub mod layout_laws;
pub mod matrix;
pub mod matrix_laws;
pub mod mle;
pub mod mle_laws;
pub mod natural;
pub mod opening;
pub mod opening_laws;
pub mod pcs;
pub mod powers;
pub mod problem;
pub mod problem_laws;
pub mod protocol;
pub mod randomness;
pub mod refusal_laws;
pub mod relation;
pub mod relation_laws;
pub mod ring_laws;
pub mod ring_scan_laws;
pub mod rounding_laws;
pub mod sampling;
pub mod scan_laws;
pub mod service;
pub mod service_laws;
pub mod signing;
pub mod solution;
pub mod statement;
pub mod statement_laws;
pub mod stream;
pub mod structure_laws;
pub mod sums;
pub mod terms;
pub mod text;
pub mod transcript;
pub mod transcript_laws;
pub mod transfer_laws;

pub use artifact::{
    encode_artifact, ArtifactEnvelope, ArtifactPrelude, ArtifactResourceLimits, ArtifactSummary,
    DecodedStatement, MAX_ARTIFACT_BYTES, MAX_BACKEND_PAYLOAD_BYTES, MAX_PUBLIC_STATEMENT_BYTES,
    MAX_SUCCINCT_ARTIFACT_BYTES, MAX_SUCCINCT_PAYLOAD_BYTES,
};
pub use binary64::Binary64;
pub use canonical::{
    domain_separated_digest, encode_to_vec, CanonicalEncode, DecodeError, DecodeLimits, Digest,
    Encoder, Reader,
};
pub use certificate::{
    CertificatePayload, CertifiedScore, DefectMetrics, FastConsistencyMetrics, ResidualMetrics,
    SignedCertificate, Unsigned192, ValidationManifest,
};
pub use compiled::MatrixRow;
pub use evaluator::{
    validate_f64_point, BooleanCoordinateOrder, ExactArithmeticBounds, ExactNoWrapDiagnostics,
    MleDomain, MleEvaluation, MleEvaluationError, PublicEvaluationMetadata, PublicEvaluationPlan,
    SuccinctPublicEvaluator,
};
pub use field::{encode_i128, PcsField};
pub use generated::{GeneratedProblem, MatrixRows, SparseMatrix};
pub use generator::GeneratorCertificate;
pub use matrix::MatrixEntry;
pub use mle::{MleInterpreter, PublicEvaluationWork};
pub use natural::Natural;
pub use opening::{
    Certificate, CommitmentLayout, ProverMetrics, ProverOutput, RoundLayout, SchemeProof,
    SchemeReadings, VerifierMetrics,
};
pub use pcs::{
    validate_shape, FixedProfile, OpeningClaims, PcsError, PcsProtocol,
    DEFAULT_MAX_CERTIFICATE_BYTES, FIXED_PROFILE,
};
pub use problem::{
    BoundaryRule, DiagonalConstruction, Dyadic, FinalizedProblem, MatrixSpec, OffDiagonalValues,
    ProblemDigest, ProblemError, ProblemSchema, ProblemTemplate, RequestedOutput, RhsSpec,
    SymmetricDiaEdge, TemplateSchema, MAX_DIMENSION, MAX_EDGE_DIAGONALS,
    MAX_EXACT_BINARY64_MANTISSA, MAX_FRACTIONAL_BITS, MAX_PERIOD_BITS, MAX_REQUESTED_OUTPUTS,
    MIN_DIMENSION,
};
pub use protocol::{
    validate_identifier, CanonicalError, CertificateSchema, ChallengePayload, ChallengeSchema,
    ProofProtocol, ProtocolError, RetryPolicy, SignedChallenge, ValidationSchema,
    MAX_CHALLENGE_BYTES, MAX_ID_BYTES, MAX_PUBLIC_EVALUATION_TERMS_LIMIT,
    MAX_SOLUTION_ELEMENTS_LIMIT,
};
pub use randomness::{
    derive_instance_seed, derive_subseed, CanonicalContextBytes, ChallengeContext,
    FinalizedRandomness, InstanceSeed, ProblemTemplateDigest, SeedDerivation, TemplateRandomness,
    MAX_CHALLENGE_CONTEXT_BYTES,
};
pub use relation::{
    audit_field_modulus, maximum_absolute_logical_rhs_mantissa, no_wrap_bounds, ExactRelation,
    ExactRelationPlan, ExactRelationProfile, FixedWitness, NoWrapBounds, RelationError,
    EXACT_RELATION_PROFILE_V1, RESIDUAL_MAGNITUDE_BITS, WITNESS_FRACTIONAL_BITS,
    WITNESS_MAGNITUDE_BITS,
};
pub use sampling::sample_nonzero_mantissa;
pub use service::{
    maximum_submission_bytes, AdmittedSubmission, BackendError, BackendVerifierReport,
    CertifiedValidation, ServiceConfig, ServiceError, StatelessValidatorService, ValidatedOutput,
    ValidatedSubmission, ValidationCancellation,
};
pub use signing::{SignatureBytes, SigningKey, VerifyingKey};
pub use solution::{
    json_closing, json_entry, json_opening, to_pretty_json, Solution, SolutionDocument,
    SolutionError, SolutionField,
};
pub use statement::{
    FramingError, PrecommitBackend, PublicStatement, ReferenceValidationBackend,
    ValidationBackend, ValidationError, VerifierStatement,
};
pub use stream::UniformStream;
pub use terms::PublicEvaluationTerms;
pub use text::{parse_decimal_i64, parse_decimal_u64};
pub use transcript::{
    ProverAction, ProverEvent, ProverRun, ProverTurn, VerifierAction, VerifierEvent, VerifierRun,
    VerifierTurn,
};
