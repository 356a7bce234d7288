use sparse_solver_validator::{
    domain_separated_digest, encode_artifact, encode_to_vec, ArtifactPrelude,
    ArtifactResourceLimits, BoundaryRule, DecodeError, DecodedStatement, DiagonalConstruction,
    FramingError, InstanceSeed, MatrixSpec, OffDiagonalValues, ProblemTemplate, ProofProtocol,
    ProtocolError, PublicStatement, ReferenceValidationBackend, RequestedOutput, RhsSpec, Solution,
    TemplateRandomness, TemplateSchema, ValidationBackend, ValidationError, ValidationManifest,
    VerifierStatement, MAX_BACKEND_PAYLOAD_BYTES,
};

fn template() -> ProblemTemplate {
    ProblemTemplate {
        schema: TemplateSchema::V1,
        randomness: TemplateRandomness::LiteralV1 {
            seed: InstanceSeed::from_bytes([7; 32]),
        },
        matrix: MatrixSpec::SeededSymmetricTridiagonalV1 {
            dimension: 8,
            boundary: BoundaryRule::TruncateV1,
            off_diagonal: OffDiagonalValues::SeededPeriodicNegativeDyadicV1 {
                period_bits: 2,
                fractional_bits: 4,
                minimum_magnitude_mantissa: 1,
                maximum_magnitude_mantissa: 2,
            },
            diagonal: DiagonalConstruction::AbsoluteRowSumPlusMarginV1 { margin_mantissa: 8 },
        },
        rhs: RhsSpec::ManufacturedOnesV1,
        requested_outputs: vec![RequestedOutput::SquaredL2ResidualV1],
    }
}

fn manifest(protocol: ProofProtocol) -> ValidationManifest {
    ValidationManifest {
        protocol,
        max_solution_elements: 8,
        ..ValidationManifest::default()
    }
}

fn statement(protocol: ProofProtocol) -> PublicStatement {
    let problem = template().finalize_literal().unwrap();
    PublicStatement::new(problem, manifest(protocol), None).unwrap()
}

fn problem_json() -> Vec<u8> {
    b"{\"problem\":\"eight rows\"}".to_vec()
}

fn manifest_json(protocol: ProofProtocol) -> Vec<u8> {
    format!("{{\"protocol\":{}}}", protocol.wire_id()).into_bytes()
}

fn encode(protocol: ProofProtocol, payload: &[u8]) -> Vec<u8> {
    encode_artifact(
        &statement(protocol),
        &problem_json(),
        &manifest_json(protocol),
        payload,
    )
    .unwrap()
}

fn decoded(protocol: ProofProtocol) -> Option<DecodedStatement> {
    Some(DecodedStatement {
        problem: template().finalize_literal().unwrap(),
        problem_json: problem_json(),
        manifest: manifest(protocol),
        manifest_json: manifest_json(protocol),
    })
}

fn refusal(encoded: &[u8], decoded: Option<DecodedStatement>) -> ValidationError {
    match ArtifactPrelude::parse(encoded, decoded) {
        Ok(_) => panic!("the artifact was accepted"),
        Err(error) => error,
    }
}

#[test]
fn every_registered_backend_uses_the_same_strict_container() {
    for protocol in [
        ProofProtocol::DirectReferenceV1,
        ProofProtocol::WhirField192L2V4,
        ProofProtocol::FastBinary64UnitCircleV3,
    ] {
        let encoded = encode(protocol, &[1, 2, 3]);
        let prelude = ArtifactPrelude::parse(&encoded, decoded(protocol)).unwrap();
        assert_eq!(prelude.statement().manifest().protocol, protocol);
        assert_eq!(prelude.payload(), &[1, 2, 3]);
        assert_eq!(prelude.summary().artifact_bytes, encoded.len());

        let mut trailing = encoded;
        trailing.push(0);
        assert!(ArtifactPrelude::parse(&trailing, decoded(protocol)).is_err());
    }
}

#[test]
fn manifest_and_header_cannot_select_different_backends() {
    let protocol = ProofProtocol::WhirField192L2V4;
    let mut encoded = encode(protocol, &[]);
    encoded[10..12].copy_from_slice(&ProofProtocol::DirectReferenceV1.wire_id().to_be_bytes());
    assert!(matches!(
        ArtifactPrelude::parse(&encoded, decoded(protocol)),
        Err(ValidationError::ProtocolMismatch)
    ));
}

#[test]
fn artifacts_have_the_documented_layout() {
    let protocol = ProofProtocol::WhirField192L2V4;
    let mut expected = b"SSVART\0\0".to_vec();
    expected.extend_from_slice(&[0, 1, 0, 2, 0, 0, 0, 0]);
    expected.extend_from_slice(&0_u64.to_be_bytes());
    expected.extend_from_slice(&(problem_json().len() as u64).to_be_bytes());
    expected.extend_from_slice(&problem_json());
    expected.extend_from_slice(&(manifest_json(protocol).len() as u64).to_be_bytes());
    expected.extend_from_slice(&manifest_json(protocol));
    expected.extend_from_slice(&[0, 1, 0, 1]);
    expected.extend_from_slice(&3_u64.to_be_bytes());
    expected.extend_from_slice(&[1, 2, 3]);
    expected.extend_from_slice(&[0xff, 0xff, 0, 1]);
    expected.extend_from_slice(&0_u64.to_be_bytes());
    let encoded = encode(protocol, &[1, 2, 3]);
    assert_eq!(encoded, expected);

    let prelude = ArtifactPrelude::parse(&encoded, decoded(protocol)).unwrap();
    let summary = prelude.summary();
    assert_eq!(summary.protocol, protocol);
    assert_eq!(summary.payload_bytes, 3);
    assert!(!summary.has_signed_problem_challenge);
    assert_eq!(
        summary.proof_digest,
        domain_separated_digest(b"sparse-solve/proof-artifact/v1", &encoded)
    );
    assert_eq!(
        summary.validation_manifest_digest,
        manifest(protocol).digest().unwrap()
    );
    assert_eq!(
        summary.problem_digest.into_bytes(),
        template()
            .finalize_literal()
            .unwrap()
            .digest()
            .unwrap()
            .into_bytes()
    );
}

#[test]
fn every_truncation_and_most_mutations_are_refused() {
    let protocol = ProofProtocol::DirectReferenceV1;
    let encoded = encode(protocol, &[1, 2, 3]);
    for length in 0..encoded.len() {
        assert!(ArtifactPrelude::parse(&encoded[..length], decoded(protocol)).is_err());
    }
    for index in 0..encoded.len() {
        let mut changed = encoded.clone();
        changed[index] ^= 1;
        match ArtifactPrelude::parse(&changed, decoded(protocol)) {
            Ok(prelude) => assert_ne!(prelude.payload(), &[1, 2, 3]),
            Err(_) => {}
        }
    }
}

#[test]
fn every_artifact_refusal_has_an_input() {
    let protocol = ProofProtocol::DirectReferenceV1;
    let encoded = encode(protocol, &[]);
    let mut magic = encoded.clone();
    magic[0] ^= 1;
    assert_eq!(
        refusal(&magic, decoded(protocol)),
        ValidationError::Framing {
            error: FramingError::BadMagic
        }
    );
    let mut version = encoded.clone();
    version[9] = 2;
    assert_eq!(
        refusal(&version, decoded(protocol)),
        ValidationError::UnsupportedVersion
    );
    let mut unknown = encoded.clone();
    unknown[11] = 3;
    assert_eq!(
        refusal(&unknown, decoded(protocol)),
        ValidationError::UnsupportedVersion
    );
    let mut flag = encoded.clone();
    flag[15] = 1;
    assert_eq!(
        refusal(&flag, decoded(protocol)),
        ValidationError::Framing {
            error: FramingError::ChallengeFlagMismatch
        }
    );
    let mut bad_end = encoded.clone();
    let end = bad_end.len() - 1;
    bad_end[end] = 1;
    assert_eq!(
        refusal(&bad_end, decoded(protocol)),
        ValidationError::Framing {
            error: FramingError::MissingFinalFrame
        }
    );
    assert_eq!(
        refusal(&encoded[..7], decoded(protocol)),
        ValidationError::Framing {
            error: FramingError::Decode {
                error: DecodeError::UnexpectedEnd
            }
        }
    );
    assert_eq!(refusal(&encoded, None), ValidationError::Json);
    let mut respelled = decoded(protocol).unwrap();
    respelled.problem_json.push(b' ');
    assert_eq!(
        refusal(&encoded, Some(respelled)),
        ValidationError::NonCanonicalJson
    );

    let limits = |elements, payload, matrix, rhs| {
        ArtifactResourceLimits::new(elements, payload, matrix, rhs)
    };
    let parse = |limits, allowed: &[ProofProtocol]| {
        ArtifactPrelude::parse_with_admission_policy(&encoded, decoded(protocol), limits, allowed)
            .map(|prelude| prelude.summary().payload_bytes)
    };
    assert_eq!(parse(limits(8, 0, 4096, 4096), &[protocol]), Ok(0));
    assert_eq!(
        parse(
            limits(8, 0, 4096, 4096),
            &[ProofProtocol::WhirField192L2V4]
        ),
        Err(ValidationError::ProtocolNotAllowed { protocol })
    );
    assert_eq!(
        parse(limits(8, 0, 4095, 4096), &[protocol]),
        Err(ValidationError::PublicEvaluationLimit)
    );
    assert_eq!(
        parse(limits(8, 0, 4096, 4095), &[protocol]),
        Err(ValidationError::PublicEvaluationLimit)
    );
    let too_long = encode(protocol, &[1, 2]);
    assert!(ArtifactPrelude::parse_with_limits(&too_long, decoded(protocol), 8, 1).is_err());
    assert!(ArtifactPrelude::parse_with_limits(&too_long, decoded(protocol), 8, 2).is_ok());
    assert!(ArtifactPrelude::parse_with_limits(&too_long, decoded(protocol), 7, 2).is_err());
    assert!(MAX_BACKEND_PAYLOAD_BYTES >= 2);
}

#[test]
fn statements_are_admitted_by_their_manifest() {
    let problem = || template().finalize_literal().unwrap();
    let direct = manifest(ProofProtocol::DirectReferenceV1);
    assert_eq!(
        PublicStatement::new(
            problem(),
            ValidationManifest {
                max_solution_elements: 7,
                ..direct
            },
            None
        )
        .unwrap_err(),
        ValidationError::DimensionLimit
    );
    assert_eq!(
        PublicStatement::new(
            problem(),
            ValidationManifest {
                max_public_matrix_terms: 3,
                ..direct
            },
            None
        )
        .unwrap_err(),
        ValidationError::PublicEvaluationLimit
    );
    assert_eq!(
        PublicStatement::new(
            problem(),
            ValidationManifest {
                max_solution_elements: 0,
                ..direct
            },
            None
        )
        .unwrap_err(),
        ValidationError::Manifest {
            error: ProtocolError::InvalidSolutionLimit
        }
    );
    let statement = statement(ProofProtocol::DirectReferenceV1);
    assert_eq!(statement.generated().dimension(), 8);
    assert!(statement.challenge().is_none());
    assert_eq!(statement.problem(), &problem());
    let verifier = statement.verifier_statement();
    assert_eq!(verifier.protocol(), ProofProtocol::DirectReferenceV1);
    assert_eq!(verifier.dimension(), 8);
    assert_eq!(verifier.problem_digest(), statement.problem_digest());
    assert_eq!(verifier.manifest_digest(), direct.digest().unwrap());
    let mut bound = vec![0, 1];
    bound.extend_from_slice(statement.problem_digest().as_bytes());
    bound.extend_from_slice(direct.digest().unwrap().as_bytes());
    assert_eq!(
        verifier.transcript_digest(),
        domain_separated_digest(b"sparse-solve/public-statement/v1", &bound)
    );
    assert_eq!(encode_to_vec(&direct).len(), 28);
}

struct CountingBackend;

impl ValidationBackend for CountingBackend {
    type ProverContext = ();

    type ProverReport = ();

    type VerifierReport = (usize, usize);

    type Error = ();

    const PROTOCOL: ProofProtocol = ProofProtocol::WhirField192L2V4;

    fn prove(
        _statement: &PublicStatement,
        solution: &Solution,
        _context: &(),
    ) -> Result<(Vec<u8>, ()), ()> {
        Ok((vec![0; solution.as_slice().len()], ()))
    }

    fn verify(
        statement: &VerifierStatement<'_>,
        payload: &[u8],
    ) -> Result<Self::VerifierReport, ()> {
        Ok((statement.dimension(), payload.len()))
    }
}

struct OracleBackend;

impl ReferenceValidationBackend for OracleBackend {
    type ProverContext = ();

    type ProverReport = ();

    type VerifierReport = usize;

    type Error = usize;

    const PROTOCOL: ProofProtocol = ProofProtocol::DirectReferenceV1;

    fn prove(
        _statement: &PublicStatement,
        solution: &Solution,
        _context: &(),
    ) -> Result<(Vec<u8>, ()), usize> {
        Ok((vec![0; solution.as_slice().len()], ()))
    }

    fn verify(statement: &PublicStatement, payload: &[u8]) -> Result<usize, usize> {
        if payload.is_empty() {
            Err(statement.generated().dimension())
        } else {
            Ok(statement.generated().dimension() + payload.len())
        }
    }
}

#[test]
fn backends_receive_the_statement_and_the_payload() {
    let exact = ProofProtocol::WhirField192L2V4;
    let encoded = encode(exact, &[1, 2, 3]);
    let prelude = ArtifactPrelude::parse(&encoded, decoded(exact)).unwrap();
    assert_eq!(prelude.verify_with::<CountingBackend>(), Ok((8, 3)));

    let direct = ProofProtocol::DirectReferenceV1;
    let encoded = encode(direct, &[1, 2, 3]);
    let prelude = ArtifactPrelude::parse(&encoded, decoded(direct)).unwrap();
    assert_eq!(prelude.verify_reference_with::<OracleBackend>(), Ok(11));
    let encoded = encode(direct, &[]);
    let prelude = ArtifactPrelude::parse(&encoded, decoded(direct)).unwrap();
    assert_eq!(prelude.verify_reference_with::<OracleBackend>(), Err(8));
}
