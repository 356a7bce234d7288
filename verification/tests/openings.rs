use sparse_solver_validator::{
    encode_i128, validate_shape, Binary64, Certificate, CommitmentLayout, OpeningClaims, PcsError,
    PcsField, PcsProtocol, ProverAction, ProverEvent, ProverRun, ProverTurn, RoundLayout,
    SchemeProof, SchemeReadings, VerifierAction, VerifierEvent, VerifierRun, VerifierTurn,
    FIXED_PROFILE,
};

fn security(bits: f64) -> Binary64 {
    Binary64::from_bits(bits.to_bits())
}

fn protocol(vector_len: usize, batch_size: usize) -> Result<PcsProtocol, PcsError> {
    PcsProtocol::new(vector_len, batch_size, true, security(130.5))
}

fn field(value: usize) -> PcsField {
    PcsField::from_u64(value as u64)
}

fn vectors(batch: usize, len: usize) -> Vec<Vec<PcsField>> {
    (0..batch)
        .map(|vector| {
            (0..len)
                .map(|index| field(1 + vector * 101 + index * 7))
                .collect()
        })
        .collect()
}

fn arbitrary_points(count: usize, variables: usize) -> Vec<Vec<PcsField>> {
    (0..count)
        .map(|point| {
            (0..variables)
                .map(|coordinate| field(13 + point * 37 + coordinate * 11))
                .collect()
        })
        .collect()
}

fn claims(protocol: &PcsProtocol, points: usize) -> OpeningClaims {
    let committed = vectors(protocol.batch_size(), protocol.vector_len());
    protocol
        .evaluate_claims(
            &committed,
            arbitrary_points(points, protocol.variables()),
            security(130.5),
            |point, vector| point[0].plus(vector[0]),
        )
        .unwrap()
}

fn scheme_proof() -> SchemeProof {
    SchemeProof {
        computed_security: security(130.5),
        layout: CommitmentLayout {
            codeword_elements: 64,
            merkle_nodes: 7,
            out_of_domain_points: 1,
            out_of_domain_elements: 2,
        },
        rounds: vec![
            RoundLayout {
                codeword_elements: 8,
                merkle_nodes: 3,
                out_of_domain_samples: 2,
                vectors: 1,
            },
            RoundLayout {
                codeword_elements: 16,
                merkle_nodes: 1,
                out_of_domain_samples: 1,
                vectors: 3,
            },
        ],
        narg_string: vec![1, 2, 3],
        hints: vec![4, 5],
        hashes_before: 10,
        hashes_after: 25,
    }
}

fn readings(protocol: &PcsProtocol, claims: OpeningClaims) -> SchemeReadings {
    let digest = protocol.bind_openings(&claims, security(130.5)).unwrap();
    SchemeReadings {
        commitment_received: true,
        claims: Ok(claims),
        computed_security: security(130.5),
        received_digest: Some(digest),
        accepted: true,
        hashes_before: 3,
        hashes_after: 9,
    }
}

#[test]
fn fixed_profile_is_the_research_v4_profile() {
    assert_eq!(FIXED_PROFILE.security_bits(), 128);
    assert_eq!(FIXED_PROFILE.starting_inverse_rate(), 2);
    assert_eq!(FIXED_PROFILE.initial_folding_factor(), 4);
    assert_eq!(FIXED_PROFILE.folding_factor(), 4);
    assert_eq!(FIXED_PROFILE.maximum_pow_bits(), 0);
    assert_eq!(FIXED_PROFILE.hash_name(), "blake3");
    assert!(FIXED_PROFILE.unique_decoding());
}

#[test]
fn invalid_shapes_are_rejected_before_upstream_construction() {
    assert!(matches!(
        validate_shape(31, 1),
        Err(PcsError::VectorLengthNotPowerOfTwo { actual: 31 })
    ));
    assert!(matches!(validate_shape(32, 0), Err(PcsError::EmptyBatch)));
    assert!(matches!(
        validate_shape(8, 1),
        Err(PcsError::InitialFoldTooLarge { .. })
    ));
    assert!(matches!(
        protocol(31, 1),
        Err(PcsError::VectorLengthNotPowerOfTwo { actual: 31 })
    ));
    assert!(matches!(protocol(32, 0), Err(PcsError::EmptyBatch)));
    assert!(matches!(
        protocol(8, 1),
        Err(PcsError::InitialFoldTooLarge {
            variables: 3,
            folding_factor: 4
        })
    ));
    assert_eq!(validate_shape(16, 1), Ok(()));
    assert!(matches!(
        validate_shape(0, 1),
        Err(PcsError::VectorLengthNotPowerOfTwo { actual: 0 })
    ));
}

#[test]
fn scheme_parameters_are_audited() {
    assert!(matches!(
        PcsProtocol::new(32, 1, false, security(130.5)),
        Err(PcsError::ExcessiveProofOfWork { maximum_bits: 0 })
    ));
    assert!(PcsProtocol::new(32, 1, true, security(128.0)).is_ok());
    assert!(matches!(
        PcsProtocol::new(32, 1, true, security(127.9)),
        Err(PcsError::InsufficientComputedSecurity {
            required_bits: 128,
            ..
        })
    ));
    for unusable in [f64::NAN, f64::INFINITY, -200.0] {
        assert!(matches!(
            PcsProtocol::new(32, 1, true, security(unusable)),
            Err(PcsError::InsufficientComputedSecurity { .. })
        ));
    }
    assert!(matches!(
        PcsProtocol::new(32, 1, true, security(1.0e12)),
        Err(PcsError::InvalidComputedSecurity { .. })
    ));
}

#[test]
fn prover_output_binds_claims_and_accounts_for_memory() {
    let protocol = protocol(32, 3).unwrap();
    let claims = claims(&protocol, 2);
    assert_eq!(claims.points, arbitrary_points(2, 5));
    assert_eq!(claims.evaluations.len(), 6);
    assert_eq!(claims.evaluation(1, 2, 3), Some(field(13 + 37 + 1 + 202)));
    assert_eq!(claims.evaluation(2, 0, 3), None);
    let output = protocol
        .prove_claims_with_transcript(&vectors(3, 32), Ok(claims.clone()), scheme_proof())
        .unwrap();
    assert_eq!(output.claims, claims);
    assert_eq!(output.certificate.narg_string(), &[1, 2, 3]);
    assert_eq!(output.certificate.hints(), &[4, 5]);
    assert_eq!(output.metrics.security_bits_floor, 130);
    assert_eq!(output.metrics.diagnostic_hash_invocations, 15);
    assert_eq!(output.metrics.source_vector_bytes, 3 * 32 * 24);
    assert_eq!(output.metrics.initial_codeword_bytes, 64 * 24);
    assert_eq!(output.metrics.initial_merkle_tree_bytes, 7 * 32);
    assert_eq!(output.metrics.initial_ood_bytes, 3 * 24);
    assert_eq!(
        output.metrics.largest_round_commitment_bytes,
        16 * 24 + 32 + 4 * 24
    );
    assert_eq!(output.metrics.two_full_folding_buffers, 2 * 32 * 24);
    assert_eq!(output.metrics.certificate_bytes, 26 + 5);
    assert_eq!(
        output.metrics.accounted_high_watermark_bytes,
        output.metrics.source_vector_bytes
            + output.metrics.initial_codeword_bytes
            + output.metrics.initial_merkle_tree_bytes
            + output.metrics.initial_ood_bytes
            + output.metrics.largest_round_commitment_bytes
            + output.metrics.two_full_folding_buffers
            + output.metrics.certificate_bytes
    );

    let encoded = output.certificate.encode().unwrap();
    let decoded = Certificate::decode_default(&encoded).unwrap();
    assert_eq!(decoded, output.certificate);
    let metrics = protocol
        .verify_with_transcript(&decoded, readings(&protocol, output.claims))
        .unwrap();
    assert_eq!(metrics.opening_points, 2);
    assert_eq!(metrics.claimed_evaluations, 6);
    assert_eq!(metrics.certificate_bytes, encoded.len());
    assert_eq!(metrics.diagnostic_hash_invocations, 6);
    assert_eq!(metrics.security_bits_floor, 130);
}

#[test]
fn strict_decoder_rejects_bad_magic_version_trailing_and_truncation() {
    let certificate = Certificate::from_streams(vec![1, 2, 3], vec![4, 5]);
    let encoded = certificate.encode().unwrap();

    let mut bad_magic = encoded.clone();
    bad_magic[0] ^= 1;
    assert!(matches!(
        Certificate::decode_default(&bad_magic),
        Err(PcsError::BadCertificateMagic)
    ));

    let mut bad_version = encoded.clone();
    bad_version[8..10].copy_from_slice(&2_u16.to_le_bytes());
    assert!(matches!(
        Certificate::decode_default(&bad_version),
        Err(PcsError::UnsupportedCertificateVersion { version: 2 })
    ));

    let mut trailing = encoded.clone();
    trailing.push(0);
    assert!(matches!(
        Certificate::decode_default(&trailing),
        Err(PcsError::TrailingCertificateBytes { trailing: 1 })
    ));

    let truncated = &encoded[..encoded.len() - 1];
    assert!(matches!(
        Certificate::decode_default(truncated),
        Err(PcsError::TruncatedCertificate)
    ));
    for length in 0..encoded.len() {
        assert!(Certificate::decode_default(&encoded[..length]).is_err());
    }
}

#[test]
fn certificates_have_the_documented_layout() {
    let certificate = Certificate::from_streams(vec![1, 2, 3], vec![4, 5]);
    let mut expected = b"SSMPCS01".to_vec();
    expected.extend_from_slice(&1_u16.to_le_bytes());
    expected.extend_from_slice(&3_u64.to_le_bytes());
    expected.extend_from_slice(&2_u64.to_le_bytes());
    expected.extend_from_slice(&[1, 2, 3, 4, 5]);
    assert_eq!(certificate.encode().unwrap(), expected);
    assert_eq!(certificate.encoded_len(), Ok(expected.len()));
    assert_eq!(certificate.narg_string_len(), 3);
    assert_eq!(certificate.hints_len(), 2);
    assert_eq!(Certificate::decode_default(&expected).unwrap(), certificate);
}

#[test]
fn decoder_enforces_limit_before_copying_streams() {
    let certificate = Certificate::from_streams(vec![1, 2, 3], vec![4, 5]);
    let encoded = certificate.encode().unwrap();
    assert!(matches!(
        Certificate::decode(&encoded, encoded.len() - 1),
        Err(PcsError::CertificateTooLarge { .. })
    ));
    assert_eq!(
        Certificate::decode(&encoded, encoded.len()).unwrap(),
        certificate
    );
    let mut overflowing = encoded;
    overflowing[10..18].copy_from_slice(&u64::MAX.to_le_bytes());
    assert!(matches!(
        Certificate::decode_default(&overflowing),
        Err(PcsError::SizeOverflow)
    ));
}

#[test]
fn configured_batch_size_is_exact() {
    let protocol = protocol(32, 27).unwrap();
    let error = protocol
        .prove_claims_with_transcript(&vectors(2, 32), Ok(claims(&protocol, 1)), scheme_proof())
        .unwrap_err();
    assert!(matches!(
        error,
        PcsError::WrongBatchSize {
            expected: 27,
            actual: 2
        }
    ));
}

#[test]
fn opening_claim_mutation_is_rejected_before_whir() {
    let protocol = protocol(32, 2).unwrap();
    let honest = readings(&protocol, claims(&protocol, 1));
    let mut bad_claims = claims(&protocol, 1);
    bad_claims.evaluations[0] = bad_claims.evaluations[0].plus(PcsField::from_u64(1));
    let certificate = Certificate::from_streams(vec![1], vec![]);
    assert!(matches!(
        protocol.verify_with_transcript(
            &certificate,
            SchemeReadings {
                claims: Ok(bad_claims),
                ..honest
            }
        ),
        Err(PcsError::OpeningStatementDigestMismatch)
    ));
}

#[test]
fn every_verification_refusal_has_an_input() {
    let protocol = protocol(32, 1).unwrap();
    let certificate = Certificate::from_streams(vec![1], vec![]);
    let honest = || readings(&protocol, claims(&protocol, 1));
    let refusal = |readings| {
        protocol
            .verify_with_transcript(&certificate, readings)
            .unwrap_err()
    };
    assert_eq!(
        refusal(SchemeReadings {
            commitment_received: false,
            ..honest()
        }),
        PcsError::Verification
    );
    assert_eq!(
        refusal(SchemeReadings {
            claims: Err("outer".to_owned()),
            ..honest()
        }),
        PcsError::TranscriptHook {
            message: "outer".to_owned()
        }
    );
    assert_eq!(
        refusal(SchemeReadings {
            received_digest: None,
            ..honest()
        }),
        PcsError::Verification
    );
    assert_eq!(
        refusal(SchemeReadings {
            accepted: false,
            ..honest()
        }),
        PcsError::Verification
    );
    let mut no_points = claims(&protocol, 1);
    no_points.points.clear();
    assert_eq!(
        refusal(SchemeReadings {
            claims: Ok(no_points),
            ..honest()
        }),
        PcsError::NoOpeningPoints
    );
    let mut short_point = claims(&protocol, 1);
    short_point.points[0].pop();
    assert_eq!(
        refusal(SchemeReadings {
            claims: Ok(short_point),
            ..honest()
        }),
        PcsError::WrongPointDimension {
            index: 0,
            expected: 5,
            actual: 4
        }
    );
    let mut missing = claims(&protocol, 1);
    missing.evaluations.clear();
    assert_eq!(
        refusal(SchemeReadings {
            claims: Ok(missing),
            ..honest()
        }),
        PcsError::WrongEvaluationCount {
            expected: 1,
            actual: 0
        }
    );
    let mut short_vectors = vectors(1, 32);
    short_vectors[0].pop();
    assert_eq!(
        protocol
            .prove_claims_with_transcript(
                &short_vectors,
                Ok(claims(&protocol, 1)),
                scheme_proof()
            )
            .unwrap_err(),
        PcsError::WrongVectorLength {
            index: 0,
            expected: 32,
            actual: 31
        }
    );
}

#[test]
fn opening_digests_hash_the_statement() {
    let protocol = protocol(16, 1).unwrap();
    let statement = OpeningClaims {
        points: vec![vec![
            field(1),
            field(2),
            field(3),
            PcsField::from_u128(u128::MAX),
        ]],
        evaluations: vec![field(9)],
    };
    let mut bytes = b"sparse-solution/mle-pcs/openings/v1\0".to_vec();
    for length in [16_u64, 1, 1, 4] {
        bytes.extend_from_slice(&length.to_le_bytes());
    }
    for element in [1_u128, 2, 3, u128::MAX] {
        bytes.extend_from_slice(&element.to_le_bytes());
        bytes.extend_from_slice(&[0; 8]);
    }
    bytes.extend_from_slice(&1_u64.to_le_bytes());
    bytes.extend_from_slice(&9_u128.to_le_bytes());
    bytes.extend_from_slice(&[0; 8]);
    assert_eq!(
        protocol.bind_openings(&statement, security(130.5)).unwrap(),
        *blake3::hash(&bytes).as_bytes()
    );
}

#[test]
fn signed_i128_encoding_preserves_additive_inverse() {
    let positive = encode_i128(i128::MAX);
    let negative = encode_i128(-i128::MAX);
    assert_eq!(positive.plus(negative), PcsField::from_u64(0));
    assert_eq!(
        encode_i128(i128::MIN),
        PcsField::from_u128(1_u128 << 127).negate()
    );
}

#[test]
fn field_elements_are_canonical_representatives() {
    let minus_one = encode_i128(-1);
    let (low, middle, high) = minus_one.limbs();
    let modulus = num_bigint::BigUint::parse_bytes(
        b"3801539170989320091464968600173246866371124347557388484609",
        10,
    )
    .unwrap();
    let value = (num_bigint::BigUint::from(high) << 128)
        + (num_bigint::BigUint::from(middle) << 64)
        + num_bigint::BigUint::from(low);
    assert_eq!(value + 1_u8, modulus);
    assert_eq!(PcsField::from_limbs(low, middle, high), Some(minus_one));
    assert_eq!(PcsField::from_limbs(low + 1, middle, high), None);
    assert_eq!(minus_one.plus(minus_one), encode_i128(-2));
    assert_eq!(PcsField::from_u64(0).negate(), PcsField::from_u64(0));
}

fn proving<'a>(run: ProverRun<'a>, event: ProverEvent) -> (ProverRun<'a>, ProverAction) {
    match run.turn(event) {
        ProverTurn::Next { run, action } => (run, action),
        other => panic!("the run ended: {other:?}"),
    }
}

fn hooked(claims: OpeningClaims) -> ProverEvent {
    ProverEvent::HookReturned {
        outcome: Ok((claims, security(130.5))),
    }
}

#[test]
fn proving_runs_follow_the_transcript_order() {
    let protocol = protocol(32, 3).unwrap();
    let statement = claims(&protocol, 2);
    let digest = protocol.bind_openings(&statement, security(130.5)).unwrap();
    let whole = scheme_proof();
    let (run, action) = protocol.begin_proof(&[9; 32], &vectors(3, 32)).unwrap();
    assert_eq!(
        action,
        ProverAction::BindSession {
            session: "sparse-solution/mle-pcs/v1",
            statement_digest: [9; 32]
        }
    );
    assert!(run.claims().is_none());
    let (run, action) = proving(
        run,
        ProverEvent::SessionBound {
            hash_count: whole.hashes_before,
        },
    );
    assert_eq!(action, ProverAction::Commit);
    let (run, action) = proving(
        run,
        ProverEvent::Committed {
            layout: whole.layout,
        },
    );
    assert_eq!(action, ProverAction::RunHook);
    let (run, action) = proving(run, hooked(statement.clone()));
    assert_eq!(action, ProverAction::SendDigest { digest });
    assert_eq!(run.claims(), Some(&statement));
    let (run, action) = proving(run, ProverEvent::DigestSent);
    assert_eq!(action, ProverAction::Prove);
    assert_eq!(run.claims(), Some(&statement));
    let finished = run.turn(ProverEvent::Proved {
        rounds: whole.rounds,
        narg_string: whole.narg_string,
        hints: whole.hints,
        hash_count: whole.hashes_after,
    });
    let ProverTurn::Finished { output } = finished else {
        panic!("the run did not finish");
    };
    let direct = protocol
        .prove_claims_with_transcript(&vectors(3, 32), Ok(statement), scheme_proof())
        .unwrap();
    assert_eq!(output, direct);
}

#[test]
fn proving_runs_refuse_what_cannot_be_proved() {
    let protocol = protocol(32, 1).unwrap();
    assert!(matches!(
        protocol.begin_proof(&[9; 32], &vectors(2, 32)),
        Err(PcsError::WrongBatchSize {
            expected: 1,
            actual: 2
        })
    ));
    let at_hook = || {
        let (run, _) = protocol.begin_proof(&[9; 32], &vectors(1, 32)).unwrap();
        let (run, _) = proving(run, ProverEvent::SessionBound { hash_count: 0 });
        let layout = scheme_proof().layout;
        proving(run, ProverEvent::Committed { layout }).0
    };
    assert!(matches!(
        at_hook().turn(ProverEvent::HookReturned {
            outcome: Err("outer".to_owned())
        }),
        ProverTurn::Refused { error: PcsError::TranscriptHook { message } } if message == "outer"
    ));
    let mut missing = claims(&protocol, 1);
    missing.evaluations.clear();
    assert!(matches!(
        at_hook().turn(hooked(missing)),
        ProverTurn::Refused {
            error: PcsError::WrongEvaluationCount {
                expected: 1,
                actual: 0
            }
        }
    ));
    assert!(matches!(
        at_hook().turn(ProverEvent::DigestSent),
        ProverTurn::OutOfOrder
    ));
    let sending = proving(at_hook(), hooked(claims(&protocol, 1))).0;
    assert!(matches!(
        sending.turn(ProverEvent::Proved {
            rounds: vec![],
            narg_string: vec![],
            hints: vec![],
            hash_count: 0
        }),
        ProverTurn::OutOfOrder
    ));
}

fn verifying<'a>(run: VerifierRun<'a>, event: VerifierEvent) -> (VerifierRun<'a>, VerifierAction) {
    match run.turn(event) {
        VerifierTurn::Next { run, action } => (run, action),
        other => panic!("the run ended: {other:?}"),
    }
}

/// The events of an accepted verification, and the action that follows each.
fn accepted(protocol: &PcsProtocol) -> Vec<(VerifierEvent, Option<VerifierAction>)> {
    let statement = claims(protocol, 1);
    let digest = protocol.bind_openings(&statement, security(130.5)).unwrap();
    vec![
        (
            VerifierEvent::SessionBound { outcome: Ok(4) },
            Some(VerifierAction::ReceiveCommitment),
        ),
        (
            VerifierEvent::CommitmentReceived { received: true },
            Some(VerifierAction::RunHook),
        ),
        (
            VerifierEvent::HookReturned {
                outcome: Ok((statement, security(130.5))),
            },
            Some(VerifierAction::ReceiveDigest),
        ),
        (
            VerifierEvent::DigestReceived {
                digest: Some(digest),
            },
            Some(VerifierAction::VerifyOpenings),
        ),
        (
            VerifierEvent::OpeningsVerified { accepted: true },
            Some(VerifierAction::VerifyFinalClaim),
        ),
        (
            VerifierEvent::FinalClaimVerified { accepted: true },
            Some(VerifierAction::RequireEnd),
        ),
        (
            VerifierEvent::EndChecked {
                reached: true,
                hash_count: 10,
            },
            None,
        ),
    ]
}

/// What an accepted verification turns into where one event is another.
fn verifying_with(position: usize, event: VerifierEvent) -> PcsError {
    let protocol = protocol(32, 1).unwrap();
    let certificate = Certificate::from_streams(vec![1], vec![]);
    let mut run = protocol.begin_verification(&[9; 32], &certificate).0;
    for (earlier, _) in accepted(&protocol).into_iter().take(position) {
        run = verifying(run, earlier).0;
    }
    match run.turn(event) {
        VerifierTurn::Refused { error } => error,
        other => panic!("not refused: {other:?}"),
    }
}

#[test]
fn verifying_runs_follow_the_transcript_order() {
    let protocol = protocol(32, 1).unwrap();
    let certificate = Certificate::from_streams(vec![1], vec![]);
    let (mut run, action) = protocol.begin_verification(&[9; 32], &certificate);
    assert_eq!(
        action,
        VerifierAction::BindSession {
            session: "sparse-solution/mle-pcs/v1",
            statement_digest: [9; 32]
        }
    );
    let mut finished = None;
    for (position, (event, following)) in accepted(&protocol).into_iter().enumerate() {
        assert_eq!(run.claims().is_some(), position >= 3);
        match run.turn(event) {
            VerifierTurn::Next { run: next, action } => {
                assert_eq!(Some(action), following);
                run = next;
            }
            VerifierTurn::Finished { metrics } => {
                assert_eq!(following, None);
                finished = Some(metrics);
                break;
            }
            other => panic!("not accepted: {other:?}"),
        }
    }
    let direct = protocol
        .verify_with_transcript(
            &certificate,
            SchemeReadings {
                hashes_before: 4,
                hashes_after: 10,
                ..readings(&protocol, claims(&protocol, 1))
            },
        )
        .unwrap();
    assert_eq!(finished, Some(direct));
}

#[test]
fn verifying_runs_refuse_at_every_step() {
    assert_eq!(
        verifying_with(
            0,
            VerifierEvent::SessionBound {
                outcome: Err("streams".to_owned())
            }
        ),
        PcsError::InternalProofDecode {
            message: "streams".to_owned()
        }
    );
    assert_eq!(
        verifying_with(1, VerifierEvent::CommitmentReceived { received: false }),
        PcsError::Verification
    );
    assert_eq!(
        verifying_with(
            2,
            VerifierEvent::HookReturned {
                outcome: Err("outer".to_owned())
            }
        ),
        PcsError::TranscriptHook {
            message: "outer".to_owned()
        }
    );
    assert_eq!(
        verifying_with(3, VerifierEvent::DigestReceived { digest: None }),
        PcsError::Verification
    );
    assert_eq!(
        verifying_with(
            3,
            VerifierEvent::DigestReceived {
                digest: Some([0; 32])
            }
        ),
        PcsError::OpeningStatementDigestMismatch
    );
    assert_eq!(
        verifying_with(4, VerifierEvent::OpeningsVerified { accepted: false }),
        PcsError::Verification
    );
    assert_eq!(
        verifying_with(5, VerifierEvent::FinalClaimVerified { accepted: false }),
        PcsError::Verification
    );
    assert_eq!(
        verifying_with(
            6,
            VerifierEvent::EndChecked {
                reached: false,
                hash_count: 10
            }
        ),
        PcsError::Verification
    );
    let protocol = protocol(32, 1).unwrap();
    let certificate = Certificate::from_streams(vec![1], vec![]);
    let run = protocol.begin_verification(&[9; 32], &certificate).0;
    assert!(matches!(
        run.turn(VerifierEvent::OpeningsVerified { accepted: true }),
        VerifierTurn::OutOfOrder
    ));
}
