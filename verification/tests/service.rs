use sparse_solver_validator::{
    domain_separated_digest, encode_artifact, maximum_submission_bytes, ArtifactEnvelope,
    ArtifactPrelude, ArtifactResourceLimits, BackendError, BackendVerifierReport, Binary64,
    BoundaryRule, CertifiedScore, DecodedStatement, DefectMetrics, DiagonalConstruction, Digest,
    ExactRelation, FastConsistencyMetrics, FinalizedProblem, FixedWitness, InstanceSeed,
    MatrixSpec, OffDiagonalValues, ProblemTemplate, ProofProtocol, ProtocolError, PublicStatement,
    RequestedOutput, ResidualMetrics, RhsSpec, SeedDerivation, ServiceConfig, ServiceError,
    SignedChallenge, SigningKey, StatelessValidatorService, TemplateRandomness, TemplateSchema,
    Unsigned192, ValidationCancellation, ValidationError, ValidationManifest, ValidationSchema,
    MAX_ID_BYTES, MAX_PUBLIC_EVALUATION_TERMS_LIMIT, MAX_SOLUTION_ELEMENTS_LIMIT,
    MAX_SUCCINCT_ARTIFACT_BYTES,
};

const DIRECT_PAYLOAD_BYTES: Option<usize> = Some(1024 * 8 + 64);

fn service_config() -> ServiceConfig {
    ServiceConfig {
        issuer: "integration-test".to_owned(),
        key_id: "integration-key-v1".to_owned(),
        challenge_lifetime_seconds: 900,
        maximum_future_skew_seconds: 5,
        maximum_solution_elements: 1024,
        maximum_public_matrix_terms: 4096,
        maximum_public_rhs_terms: 4096,
        allowed_protocols: vec![
            ProofProtocol::DirectReferenceV1,
            ProofProtocol::WhirField192L2V4,
            ProofProtocol::FastBinary64UnitCircleV3,
        ],
        validator_build: "integration-test-build".to_owned(),
    }
}

fn configured(config: ServiceConfig) -> Result<StatelessValidatorService, ServiceError> {
    StatelessValidatorService::new(config, SigningKey::from_bytes(&[7; 32]), DIRECT_PAYLOAD_BYTES)
}

fn service() -> StatelessValidatorService {
    configured(service_config()).unwrap()
}

fn refused(config: ServiceConfig) -> ServiceError {
    match configured(config) {
        Ok(_) => panic!("the configuration was accepted"),
        Err(error) => error,
    }
}

fn template(randomness: TemplateRandomness, dimension: u64) -> ProblemTemplate {
    ProblemTemplate {
        schema: TemplateSchema::V1,
        randomness,
        matrix: MatrixSpec::SeededSymmetricTridiagonalV1 {
            dimension,
            boundary: BoundaryRule::TruncateV1,
            off_diagonal: OffDiagonalValues::SeededPeriodicNegativeDyadicV1 {
                period_bits: 3,
                fractional_bits: 8,
                minimum_magnitude_mantissa: 1,
                maximum_magnitude_mantissa: 12,
            },
            diagonal: DiagonalConstruction::AbsoluteRowSumPlusMarginV1 {
                margin_mantissa: 16,
            },
        },
        rhs: RhsSpec::ManufacturedOnesV1,
        requested_outputs: vec![RequestedOutput::SquaredL2ResidualV1],
    }
}

fn challenge_template() -> ProblemTemplate {
    template(
        TemplateRandomness::ChallengeDerivedV1 {
            derivation: SeedDerivation::Blake3XofV1,
        },
        16,
    )
}

fn local_template() -> ProblemTemplate {
    template(
        TemplateRandomness::LiteralV1 {
            seed: InstanceSeed::from_bytes([7; 32]),
        },
        16,
    )
}

fn seeded_rhs_challenge_template() -> ProblemTemplate {
    let mut template = challenge_template();
    template.rhs = RhsSpec::SeededPeriodicDyadicV1 {
        period_bits: 3,
        fractional_bits: 8,
        minimum_mantissa: -4,
        maximum_mantissa: 7,
    };
    template
}

fn manifest() -> ValidationManifest {
    ValidationManifest {
        max_solution_elements: 1_024,
        ..ValidationManifest::default()
    }
}

fn problem_text(problem: &FinalizedProblem) -> Vec<u8> {
    format!("{{\"problem\":\"{}\"}}", problem.digest().unwrap().to_hex()).into_bytes()
}

fn manifest_text(manifest: &ValidationManifest) -> Vec<u8> {
    format!(
        "{{\"protocol\":{},\"max_solution_elements\":{},\"max_public_matrix_terms\":{},\"max_public_rhs_terms\":{}}}",
        manifest.protocol.wire_id(),
        manifest.max_solution_elements,
        manifest.max_public_matrix_terms,
        manifest.max_public_rhs_terms
    )
    .into_bytes()
}

fn read_manifest(text: &[u8]) -> ValidationManifest {
    let value: serde_json::Value = serde_json::from_slice(text).unwrap();
    ValidationManifest {
        schema: ValidationSchema::V1,
        protocol: ProofProtocol::from_wire_id(value["protocol"].as_u64().unwrap() as u16).unwrap(),
        max_solution_elements: value["max_solution_elements"].as_u64().unwrap(),
        max_public_matrix_terms: value["max_public_matrix_terms"].as_u64().unwrap(),
        max_public_rhs_terms: value["max_public_rhs_terms"].as_u64().unwrap(),
    }
}

/// An artifact and what its problem text stands for.
#[derive(Clone)]
struct Submission {
    bytes: Vec<u8>,
    problem: FinalizedProblem,
}

impl Submission {
    fn decoded(&self) -> Option<DecodedStatement> {
        let limits = ArtifactResourceLimits::new(
            MAX_SOLUTION_ELEMENTS_LIMIT,
            1 << 20,
            MAX_PUBLIC_EVALUATION_TERMS_LIMIT,
            MAX_PUBLIC_EVALUATION_TERMS_LIMIT,
        );
        let all = service_config().allowed_protocols;
        let envelope = ArtifactEnvelope::open(&self.bytes, limits, &all).ok()?;
        if envelope.problem_json() != problem_text(&self.problem) {
            return None;
        }
        let manifest = read_manifest(envelope.manifest_json());
        Some(DecodedStatement {
            problem: self.problem.clone(),
            problem_json: problem_text(&self.problem),
            manifest_json: manifest_text(&manifest),
            manifest,
        })
    }
}

fn artifact(
    problem: FinalizedProblem,
    manifest: ValidationManifest,
    challenge: Option<SignedChallenge>,
    payload: &[u8],
) -> Submission {
    let statement = PublicStatement::new(problem.clone(), manifest, challenge).unwrap();
    let bytes = encode_artifact(
        &statement,
        &problem_text(&problem),
        &manifest_text(&manifest),
        payload,
    )
    .unwrap();
    Submission { bytes, problem }
}

fn challenged(
    issuer: &StatelessValidatorService,
    template: &ProblemTemplate,
    entropy: u8,
    now: i64,
) -> (SignedChallenge, FinalizedProblem) {
    let challenge = issuer
        .issue_challenge(template, Digest::from_bytes([entropy; 32]), now)
        .unwrap();
    let problem = template
        .finalize_with_challenge_context(&challenge.payload_canonical_bytes())
        .unwrap();
    (challenge, problem)
}

fn replace_once(encoded: &mut [u8], original: &[u8], replacement: &[u8]) {
    assert_eq!(original.len(), replacement.len());
    let position = encoded
        .windows(original.len())
        .position(|window| window == original)
        .unwrap();
    encoded[position..position + original.len()].copy_from_slice(replacement);
}

fn zero() -> Binary64 {
    Binary64::from_bits(0)
}

fn direct_report() -> Result<BackendVerifierReport, BackendError> {
    Ok(BackendVerifierReport {
        protocol: ProofProtocol::DirectReferenceV1,
        score: CertifiedScore::DirectBinary64ResidualV1 {
            residual: ResidualMetrics {
                squared_l2: zero(),
                l2: zero(),
                rms: zero(),
                max_abs: zero(),
            },
        },
    })
}

fn exact_report(problem: &FinalizedProblem) -> Result<BackendVerifierReport, BackendError> {
    let generated = problem.compile().unwrap();
    let ones = FixedWitness::from_integers(vec![1_i128 << 64; generated.dimension()]);
    let relation = ExactRelation::from_witness(&generated, ones).unwrap();
    let mut numerator = [0_u8; 24];
    for (index, digit) in relation.squared_l2_numerator().digits().iter().enumerate() {
        numerator[20 - 4 * index..24 - 4 * index].copy_from_slice(&digit.to_be_bytes());
    }
    Ok(BackendVerifierReport {
        protocol: ProofProtocol::WhirField192L2V4,
        score: CertifiedScore::ExactDyadicSquaredL2V1 {
            numerator: Unsigned192::from_be_bytes(numerator),
            denominator_power: relation.squared_l2_denominator_power(),
        },
    })
}

#[test]
fn service_rejects_validator_builds_that_are_invalid_in_certificates() {
    for invalid in [
        "",
        "contains space",
        "line\nbreak",
        "\u{7f}",
        "non-ascii-\u{e9}",
    ] {
        let mut config = service_config();
        config.validator_build = invalid.to_owned();
        assert!(matches!(
            refused(config),
            ServiceError::Protocol {
                error: ProtocolError::InvalidIdentifier {
                    field: "validator_build"
                }
            }
        ));
    }

    let mut oversized = service_config();
    oversized.validator_build = "x".repeat(MAX_ID_BYTES + 1);
    assert!(matches!(
        refused(oversized),
        ServiceError::Protocol {
            error: ProtocolError::InvalidIdentifier {
                field: "validator_build"
            }
        }
    ));

    let mut maximum = service_config();
    maximum.validator_build = "x".repeat(MAX_ID_BYTES);
    assert!(configured(maximum).is_ok());
}

#[test]
fn service_rejects_invalid_deployment_policy() {
    for (matrix_terms, rhs_terms) in [
        (0, 1),
        (1, 0),
        (MAX_PUBLIC_EVALUATION_TERMS_LIMIT + 1, 1),
        (1, MAX_PUBLIC_EVALUATION_TERMS_LIMIT + 1),
    ] {
        let mut config = service_config();
        config.maximum_public_matrix_terms = matrix_terms;
        config.maximum_public_rhs_terms = rhs_terms;
        assert!(matches!(
            refused(config),
            ServiceError::InvalidConfiguration { .. }
        ));
    }

    let mut config = service_config();
    config.allowed_protocols.clear();
    assert!(matches!(
        refused(config),
        ServiceError::InvalidConfiguration { .. }
    ));
}

#[test]
fn every_configuration_refusal_has_an_input() {
    let mut lifetime = service_config();
    lifetime.challenge_lifetime_seconds = 0;
    assert_eq!(
        refused(lifetime),
        ServiceError::InvalidConfiguration {
            reason: "challenge lifetime must be positive"
        }
    );
    let mut skew = service_config();
    skew.maximum_future_skew_seconds = -1;
    assert_eq!(
        refused(skew),
        ServiceError::InvalidConfiguration {
            reason: "maximum future skew must not be negative"
        }
    );
    let mut elements = service_config();
    elements.maximum_solution_elements = 0;
    assert_eq!(
        refused(elements),
        ServiceError::InvalidConfiguration {
            reason: "maximum solution elements is outside backend bounds"
        }
    );
    assert!(StatelessValidatorService::new(
        service_config(),
        SigningKey::from_bytes(&[7; 32]),
        None
    )
    .is_err());
    let mut issuer = service_config();
    issuer.issuer = String::new();
    assert_eq!(
        refused(issuer),
        ServiceError::Protocol {
            error: ProtocolError::InvalidIdentifier { field: "issuer" }
        }
    );
    let mut key = service_config();
    key.key_id = String::new();
    assert_eq!(
        refused(key),
        ServiceError::Protocol {
            error: ProtocolError::InvalidIdentifier { field: "key_id" }
        }
    );
    assert_eq!(service().config(), &service_config());
}

#[test]
fn submission_caps_cover_both_kinds_of_backend() {
    assert_eq!(
        maximum_submission_bytes(16, Some(10)),
        Some(MAX_SUCCINCT_ARTIFACT_BYTES)
    );
    let large = 1_usize << 30;
    assert_eq!(
        maximum_submission_bytes(16, Some(large)),
        Some(2048 + (1 << 20) + large + 128)
    );
    assert_eq!(maximum_submission_bytes(0, Some(10)), None);
    assert_eq!(
        maximum_submission_bytes(MAX_SOLUTION_ELEMENTS_LIMIT + 1, Some(10)),
        None
    );
    assert_eq!(maximum_submission_bytes(16, None), None);
    assert_eq!(maximum_submission_bytes(16, Some(usize::MAX)), None);
}

#[test]
fn cancelled_validation_stops_before_artifact_parsing() {
    let cancellation = ValidationCancellation {
        before_parsing: true,
        ..ValidationCancellation::never()
    };
    assert!(matches!(
        service().validate_submission_with_cancellation(
            b"not a validation artifact",
            None,
            1_001,
            direct_report(),
            cancellation
        ),
        Err(ServiceError::ValidationCancelled)
    ));
}

#[test]
fn every_poll_can_cancel_validation() {
    let service = service();
    let (challenge, problem) = challenged(&service, &challenge_template(), 9, 1_000);
    let submission = artifact(problem, manifest(), Some(challenge), &[]);
    let validate = |cancellation| {
        service
            .validate_submission_with_cancellation(
                &submission.bytes,
                submission.decoded(),
                1_001,
                direct_report(),
                cancellation,
            )
            .map(|validated| validated.output().summary.payload_bytes)
    };
    let never = ValidationCancellation::never();
    assert_eq!(validate(never), Ok(0));
    assert_eq!(
        service.validate_owned_submission(
            submission.bytes.clone(),
            submission.decoded(),
            1_001,
            direct_report()
        ),
        service.validate_submission(
            &submission.bytes,
            submission.decoded(),
            1_001,
            direct_report()
        )
    );
    for cancellation in [
        ValidationCancellation {
            after_parsing: true,
            ..never
        },
        ValidationCancellation {
            before_verification: true,
            ..never
        },
        ValidationCancellation {
            after_verification: true,
            ..never
        },
    ] {
        assert_eq!(
            validate(cancellation),
            Err(ServiceError::ValidationCancelled)
        );
    }
}

#[test]
fn admission_steps_poll_between_parsing_and_verification() {
    let service = service();
    let (challenge, problem) = challenged(&service, &challenge_template(), 9, 1_000);
    let submission = artifact(problem.clone(), manifest(), Some(challenge), &[7, 8]);
    let parse = || {
        let envelope = service.open_submission(&submission.bytes, false).unwrap();
        service.parse_submission(envelope, submission.decoded())
    };
    assert_eq!(
        service.open_submission(&submission.bytes, true).unwrap_err(),
        ServiceError::ValidationCancelled
    );
    assert_eq!(
        service
            .check_provenance(parse().unwrap(), 1_001, true)
            .unwrap_err(),
        ServiceError::ValidationCancelled
    );
    let admitted = service
        .check_provenance(parse().unwrap(), 1_001, false)
        .unwrap();
    assert_eq!(
        admitted.verification_input(true).unwrap_err(),
        ServiceError::ValidationCancelled
    );
    let prelude = admitted.verification_input(false).unwrap();
    assert_eq!(prelude.payload(), [7, 8]);
    let stepwise = admitted.conclude(direct_report(), false).unwrap();
    assert_eq!(
        stepwise,
        service
            .validate_submission(
                &submission.bytes,
                submission.decoded(),
                1_001,
                direct_report()
            )
            .unwrap()
    );
    let envelope = service.open_submission(&submission.bytes, false).unwrap();
    assert_eq!(
        service.parse_submission(envelope, None).unwrap_err(),
        ServiceError::Artifact {
            error: ValidationError::Json
        }
    );
    assert!(service.check_provenance(parse().unwrap(), 0, false).is_err());
}

#[test]
fn challenge_issuance_enforces_deployment_evaluator_limits() {
    let mut matrix_config = service_config();
    matrix_config.maximum_public_matrix_terms = 7;
    let matrix_limited = configured(matrix_config).unwrap();
    assert!(matches!(
        matrix_limited.issue_challenge(&challenge_template(), Digest::from_bytes([40; 32]), 1_000),
        Err(ServiceError::PublicEvaluationLimit)
    ));

    let mut rhs_config = service_config();
    rhs_config.maximum_public_rhs_terms = 7;
    let rhs_limited = configured(rhs_config).unwrap();
    assert!(matches!(
        rhs_limited.issue_challenge(
            &seeded_rhs_challenge_template(),
            Digest::from_bytes([41; 32]),
            1_000
        ),
        Err(ServiceError::PublicEvaluationLimit)
    ));
}

#[test]
fn every_issuance_refusal_has_an_input() {
    let service = service();
    let entropy = Digest::from_bytes([1; 32]);
    let refusal = |template: &ProblemTemplate, now| {
        service
            .issue_challenge(template, entropy, now)
            .unwrap_err()
    };
    assert_eq!(
        refusal(&local_template(), 1_000),
        ServiceError::ChallengeRequiresDerivedTemplate
    );
    let derived = TemplateRandomness::ChallengeDerivedV1 {
        derivation: SeedDerivation::Blake3XofV1,
    };
    assert_eq!(
        refusal(&template(derived, 1_025), 1_000),
        ServiceError::SolutionElementLimit
    );
    assert!(matches!(
        refusal(&template(derived, 1), 1_000),
        ServiceError::Problem { .. }
    ));
    assert!(matches!(
        refusal(&challenge_template(), -1),
        ServiceError::Protocol {
            error: ProtocolError::NegativeTimestamp
        }
    ));
    assert!(service
        .issue_challenge(&challenge_template(), entropy, i64::MAX)
        .is_err());
    let challenge = service
        .issue_challenge(&challenge_template(), entropy, 1_000)
        .unwrap();
    assert_eq!(challenge.payload.issuer, "integration-test");
    assert_eq!(challenge.payload.expires_at_unix_seconds, 1_900);
    assert_eq!(
        challenge.verify(
            &service.verifying_key(),
            "integration-test",
            "integration-key-v1",
            1_001,
            5
        ),
        Ok(())
    );
}

#[test]
fn artifact_admission_rechecks_deployment_evaluator_limits() {
    let issuer = service();
    let (challenge, problem) = challenged(&issuer, &challenge_template(), 39, 1_000);
    let mut matrix_artifact = artifact(
        problem,
        ValidationManifest {
            max_solution_elements: 1_024,
            max_public_matrix_terms: 8,
            max_public_rhs_terms: 1,
            ..ValidationManifest::default()
        },
        Some(challenge),
        &[],
    );
    replace_once(
        &mut matrix_artifact.bytes,
        b"\"max_public_matrix_terms\":8",
        b"\"max_public_matrix_terms\":7",
    );
    let mut matrix_config = service_config();
    matrix_config.maximum_public_matrix_terms = 7;
    let matrix_limited = configured(matrix_config).unwrap();
    assert!(matches!(
        matrix_limited.validate_submission(
            &matrix_artifact.bytes,
            matrix_artifact.decoded(),
            1_001,
            direct_report()
        ),
        Err(ServiceError::Artifact {
            error: ValidationError::PublicEvaluationLimit
        })
    ));

    let (challenge, problem) = challenged(&issuer, &seeded_rhs_challenge_template(), 39, 1_000);
    let mut rhs_artifact = artifact(
        problem,
        ValidationManifest {
            max_solution_elements: 1_024,
            max_public_matrix_terms: 8,
            max_public_rhs_terms: 8,
            ..ValidationManifest::default()
        },
        Some(challenge),
        &[],
    );
    replace_once(
        &mut rhs_artifact.bytes,
        b"\"max_public_rhs_terms\":8",
        b"\"max_public_rhs_terms\":7",
    );
    let mut rhs_config = service_config();
    rhs_config.maximum_public_rhs_terms = 7;
    let rhs_limited = configured(rhs_config).unwrap();
    assert!(matches!(
        rhs_limited.validate_submission(
            &rhs_artifact.bytes,
            rhs_artifact.decoded(),
            1_001,
            direct_report()
        ),
        Err(ServiceError::Artifact {
            error: ValidationError::PublicEvaluationLimit
        })
    ));
}

#[test]
fn manifest_cannot_raise_deployment_evaluator_limits() {
    let issuer = service();
    let (challenge, problem) = challenged(&issuer, &challenge_template(), 42, 1_000);
    let mut config = service_config();
    config.maximum_public_matrix_terms = 8;
    config.maximum_public_rhs_terms = 1;
    let restricted = configured(config).unwrap();

    for manifest in [
        ValidationManifest {
            max_solution_elements: 1_024,
            max_public_matrix_terms: 9,
            max_public_rhs_terms: 1,
            ..ValidationManifest::default()
        },
        ValidationManifest {
            max_solution_elements: 1_024,
            max_public_matrix_terms: 8,
            max_public_rhs_terms: 2,
            ..ValidationManifest::default()
        },
    ] {
        let submission = artifact(problem.clone(), manifest, Some(challenge.clone()), &[]);
        assert!(matches!(
            restricted.validate_submission(
                &submission.bytes,
                submission.decoded(),
                1_001,
                direct_report()
            ),
            Err(ServiceError::Artifact {
                error: ValidationError::PublicEvaluationLimit
            })
        ));
    }
}

#[test]
fn every_disallowed_protocol_is_rejected_before_backend_verification() {
    let issuer = service();
    let (challenge, problem) = challenged(&issuer, &challenge_template(), 43, 1_000);

    for (protocol, allowed_protocols) in [
        (
            ProofProtocol::DirectReferenceV1,
            vec![ProofProtocol::WhirField192L2V4],
        ),
        (
            ProofProtocol::WhirField192L2V4,
            vec![ProofProtocol::FastBinary64UnitCircleV3],
        ),
        (
            ProofProtocol::FastBinary64UnitCircleV3,
            vec![ProofProtocol::DirectReferenceV1],
        ),
    ] {
        let submission = artifact(
            problem.clone(),
            ValidationManifest {
                protocol,
                max_solution_elements: 1_024,
                max_public_matrix_terms: 8,
                max_public_rhs_terms: 1,
                ..ValidationManifest::default()
            },
            Some(challenge.clone()),
            &[],
        );
        let mut config = service_config();
        config.maximum_public_matrix_terms = 8;
        config.maximum_public_rhs_terms = 1;
        config.allowed_protocols = allowed_protocols;
        let restricted = configured(config).unwrap();

        assert!(matches!(
            restricted.validate_submission(
                &submission.bytes,
                submission.decoded(),
                1_001,
                direct_report()
            ),
            Err(ServiceError::ProtocolNotAllowed {
                protocol: rejected
            }) if rejected == protocol
        ));
    }
}

#[test]
fn hosted_single_problem_flow_signs_the_recomputed_residual() {
    let service = service();
    let template = challenge_template();
    let (challenge, problem) = challenged(&service, &template, 9, 1_000);
    assert!(PublicStatement::new(problem.clone(), manifest(), None).is_err());
    let proof = artifact(problem, manifest(), Some(challenge.clone()), &[1, 2, 3]);
    for length in 0..proof.bytes.len() {
        assert!(ArtifactPrelude::parse(&proof.bytes[..length], proof.decoded()).is_err());
    }

    let certified = service
        .validate_and_certify(&proof.bytes, proof.decoded(), 1_001, direct_report(), 1_002)
        .unwrap();
    let report = certified.output.backend_report();
    assert_eq!(report.protocol(), ProofProtocol::DirectReferenceV1);
    let CertifiedScore::DirectBinary64ResidualV1 { residual } = report.certified_score() else {
        panic!("expected direct report");
    };
    assert_eq!(residual.squared_l2, zero());
    assert_eq!(residual.max_abs, zero());
    certified
        .certificate
        .verify(
            &service.verifying_key(),
            "integration-test",
            "integration-key-v1",
        )
        .unwrap();
    assert_eq!(
        certified.certificate.payload.proof_digest,
        certified.output.summary.proof_digest
    );
    assert_eq!(
        certified.certificate.payload.proof_digest,
        domain_separated_digest(b"sparse-solve/proof-artifact/v1", &proof.bytes)
    );
    assert_eq!(
        certified.certificate.payload.challenge_digest,
        challenge.digest()
    );
    assert_eq!(certified.certificate.payload.issued_at_unix_seconds, 1_002);

    let mut invalid_challenge = challenge.clone();
    invalid_challenge.payload.issued_at_unix_seconds = -1;
    let invalid_problem = template
        .finalize_with_challenge_context(&invalid_challenge.payload_canonical_bytes())
        .unwrap();
    assert!(PublicStatement::new(invalid_problem, manifest(), Some(invalid_challenge)).is_err());

    let validated = service
        .validate_submission(&proof.bytes, proof.decoded(), 1_001, direct_report())
        .unwrap();
    assert!(matches!(
        service.certify(validated.clone(), 1_000),
        Err(ServiceError::CertificateBeforeValidation)
    ));
    assert!(matches!(
        service.certify(validated, 1_901),
        Err(ServiceError::ChallengeExpiredDuringValidation)
    ));
}

#[test]
fn service_rejects_expired_malformed_and_literal_submissions() {
    let service = service();
    let template = challenge_template();
    let (challenge, problem) = challenged(&service, &template, 9, 1_000);
    let proof = artifact(
        problem.clone(),
        manifest(),
        Some(challenge.clone()),
        &[1, 2, 3],
    );
    assert_eq!(
        service
            .validate_and_certify(&proof.bytes, proof.decoded(), 1_901, direct_report(), 1_902)
            .unwrap_err(),
        ServiceError::Protocol {
            error: ProtocolError::ChallengeExpired { at: 1_900 }
        }
    );

    let mut trailing = proof.clone();
    trailing.bytes.push(0);
    assert!(service
        .validate_and_certify(
            &trailing.bytes,
            trailing.decoded(),
            1_001,
            direct_report(),
            1_002
        )
        .is_err());

    let local_problem = local_template().finalize_literal().unwrap();
    let local_proof = artifact(local_problem, manifest(), None, &[1, 2, 3]);
    assert!(matches!(
        service.validate_and_certify(
            &local_proof.bytes,
            local_proof.decoded(),
            1_001,
            direct_report(),
            1_002
        ),
        Err(ServiceError::SignedChallengeRequired)
    ));
    let local_prelude = ArtifactPrelude::parse(&local_proof.bytes, local_proof.decoded()).unwrap();
    assert!(!local_prelude.summary().has_signed_problem_challenge);

    let relaxed_manifest = ValidationManifest {
        max_solution_elements: 2_048,
        ..ValidationManifest::default()
    };
    let over_policy = artifact(problem, relaxed_manifest, Some(challenge), &[1, 2, 3]);
    assert!(service
        .validate_submission(
            &over_policy.bytes,
            over_policy.decoded(),
            1_001,
            direct_report()
        )
        .is_err());
}

#[test]
fn foreign_and_refused_work_is_not_certified() {
    let service = service();
    let (challenge, problem) = challenged(&service, &challenge_template(), 9, 1_000);
    let proof = artifact(problem, manifest(), Some(challenge), &[]);
    let failure = || {
        Err(BackendError {
            message: "residual differs".to_owned(),
        })
    };
    assert_eq!(
        service
            .validate_and_certify(&proof.bytes, proof.decoded(), 1_001, failure(), 1_002)
            .unwrap_err(),
        ServiceError::Backend {
            error: BackendError {
                message: "residual differs".to_owned()
            }
        }
    );
    let mut other_lifetime = service_config();
    other_lifetime.challenge_lifetime_seconds = 901;
    assert_eq!(
        configured(other_lifetime)
            .unwrap()
            .validate_submission(&proof.bytes, proof.decoded(), 1_001, direct_report())
            .unwrap_err(),
        ServiceError::ChallengeLifetimeMismatch
    );
    let other_key = StatelessValidatorService::new(
        service_config(),
        SigningKey::from_bytes(&[8; 32]),
        DIRECT_PAYLOAD_BYTES,
    )
    .unwrap();
    assert_eq!(
        other_key
            .validate_submission(&proof.bytes, proof.decoded(), 1_001, direct_report())
            .unwrap_err(),
        ServiceError::Protocol {
            error: ProtocolError::InvalidSignature
        }
    );
    assert_eq!(
        service
            .validate_submission(&proof.bytes, None, 1_001, direct_report())
            .unwrap_err(),
        ServiceError::Artifact {
            error: ValidationError::Json
        }
    );
}

#[test]
fn challenge_cannot_be_rebound_to_another_template() {
    let service = service();
    let derived = TemplateRandomness::ChallengeDerivedV1 {
        derivation: SeedDerivation::Blake3XofV1,
    };
    let (challenge, problem) = challenged(&service, &challenge_template(), 9, 1_000);
    let other = template(derived, 17);
    assert_ne!(
        challenge_template().digest().unwrap(),
        other.digest().unwrap()
    );
    assert_ne!(
        challenge.payload.problem_template_digest,
        Digest::from_bytes(other.digest().unwrap().into_bytes())
    );
    let rebound = other
        .finalize_with_challenge_context(&challenge.payload_canonical_bytes())
        .unwrap();
    assert_eq!(
        PublicStatement::new(rebound, manifest(), Some(challenge.clone())).unwrap_err(),
        ValidationError::ProblemChallengeMismatch
    );
    assert!(PublicStatement::new(problem, manifest(), Some(challenge)).is_ok());
}

#[test]
fn certificate_cannot_predate_a_skew_tolerated_challenge() {
    let service = service();
    let (challenge, problem) = challenged(&service, &challenge_template(), 4, 1_004);
    let proof = artifact(problem, manifest(), Some(challenge), &[1, 2, 3]);
    let validated = service
        .validate_submission(&proof.bytes, proof.decoded(), 1_000, direct_report())
        .unwrap();
    assert!(matches!(
        service.certify(validated, 1_000),
        Err(ServiceError::CertificateBeforeChallenge)
    ));
}

#[test]
fn hosted_exact_backend_returns_an_exact_dyadic_certificate() {
    let service = service();
    let (challenge, problem) = challenged(&service, &challenge_template(), 21, 1_000);
    let exact_manifest = ValidationManifest {
        protocol: ProofProtocol::WhirField192L2V4,
        max_solution_elements: 1_024,
        ..ValidationManifest::default()
    };
    let report = exact_report(&problem);
    let proof = artifact(problem, exact_manifest, Some(challenge), &[1, 2, 3]);
    let certified = service
        .validate_and_certify(&proof.bytes, proof.decoded(), 1_001, report, 1_002)
        .unwrap();
    assert_eq!(
        certified.output.backend_report().protocol(),
        ProofProtocol::WhirField192L2V4
    );
    assert!(matches!(
        certified.certificate.payload.score,
        CertifiedScore::ExactDyadicSquaredL2V1 {
            denominator_power: 144,
            ..
        }
    ));
}

#[test]
fn fast_and_exact_certificates_share_the_challenge() {
    let service = service();
    let (challenge, problem) = challenged(&service, &challenge_template(), 31, 1_000);
    let defects = DefectMetrics {
        maximum_absolute_defect: zero(),
        maximum_normalized_defect: zero(),
        rms_normalized_defect: zero(),
        threshold_exceedances: 0,
    };
    let fast_report = Ok(BackendVerifierReport {
        protocol: ProofProtocol::FastBinary64UnitCircleV3,
        score: CertifiedScore::FastBinary64SquaredL2V1 {
            squared_l2: zero(),
            consistency: FastConsistencyMetrics {
                norm_sumcheck: defects,
                matvec_sumcheck: defects,
                linear_opening: defects,
                unit_circle_folds: defects,
                recursive_query_trajectories: 32,
            },
        },
    });
    for (protocol, report) in [
        (ProofProtocol::FastBinary64UnitCircleV3, fast_report),
        (ProofProtocol::WhirField192L2V4, exact_report(&problem)),
    ] {
        let proof = artifact(
            problem.clone(),
            ValidationManifest {
                protocol,
                max_solution_elements: 1_024,
                ..ValidationManifest::default()
            },
            Some(challenge.clone()),
            &[1, 2, 3],
        );
        let certified = service
            .validate_and_certify(&proof.bytes, proof.decoded(), 1_001, report, 1_002)
            .unwrap();
        assert_eq!(certified.certificate.payload.protocol, protocol);
        assert_eq!(
            certified.certificate.payload.challenge_digest,
            challenge.digest()
        );
    }
}
