use ed25519_dalek::Signer;
use sparse_solver_validator::{
    domain_separated_digest, encode_to_vec, validate_identifier, Binary64, CanonicalError,
    CertificatePayload, CertificateSchema, CertifiedScore, ChallengePayload, ChallengeSchema,
    DecodeError, DecodeLimits, DefectMetrics, Digest, Encoder, FastConsistencyMetrics,
    ProofProtocol, ProtocolError, Reader, ResidualMetrics, RetryPolicy, SignatureBytes,
    SignedCertificate, SignedChallenge, SigningKey, Unsigned192, ValidationManifest,
    ValidationSchema, VerifyingKey, MAX_CHALLENGE_BYTES, MAX_ID_BYTES,
    MAX_PUBLIC_EVALUATION_TERMS_LIMIT, MAX_SOLUTION_ELEMENTS_LIMIT,
};

fn signing_key() -> SigningKey {
    SigningKey::from_bytes(&[7; 32])
}

fn payload() -> ChallengePayload {
    ChallengePayload {
        schema: ChallengeSchema::V1,
        issuer: "test-issuer".to_owned(),
        key_id: "test-key".to_owned(),
        issued_at_unix_seconds: 1_000,
        expires_at_unix_seconds: 2_000,
        entropy: Digest::from_bytes([3; 32]),
        problem_template_digest: Digest::from_bytes([4; 32]),
        retry_policy: RetryPolicy::ReplayAllowedV1,
    }
}

fn metric(value: f64) -> Binary64 {
    Binary64::from_bits(value.to_bits())
}

fn defects(absolute: f64, normalized: f64, rms: f64, exceedances: u64) -> DefectMetrics {
    DefectMetrics {
        maximum_absolute_defect: metric(absolute),
        maximum_normalized_defect: metric(normalized),
        rms_normalized_defect: metric(rms),
        threshold_exceedances: exceedances,
    }
}

fn consistency(metrics: DefectMetrics) -> FastConsistencyMetrics {
    FastConsistencyMetrics {
        norm_sumcheck: metrics,
        matvec_sumcheck: metrics,
        linear_opening: metrics,
        unit_circle_folds: metrics,
        recursive_query_trajectories: 1,
    }
}

fn residual(squared_l2: f64) -> CertifiedScore {
    CertifiedScore::DirectBinary64ResidualV1 {
        residual: ResidualMetrics {
            squared_l2: metric(squared_l2),
            l2: metric(0.5),
            rms: metric(0.125),
            max_abs: metric(0.5),
        },
    }
}

fn certificate_payload(protocol: ProofProtocol, score: CertifiedScore) -> CertificatePayload {
    CertificatePayload {
        schema: CertificateSchema::V3,
        issuer: "test-issuer".to_owned(),
        key_id: "test-key".to_owned(),
        issued_at_unix_seconds: 1_500,
        challenge_digest: Digest::from_bytes([1; 32]),
        problem_digest: Digest::from_bytes([2; 32]),
        validation_manifest_digest: Digest::from_bytes([3; 32]),
        proof_digest: Digest::from_bytes([4; 32]),
        protocol,
        score,
        validator_build: "test-build".to_owned(),
    }
}

#[test]
fn challenge_sign_verify_and_canonical_round_trip() {
    let key = signing_key();
    let challenge = SignedChallenge::sign(payload(), &key).unwrap();
    challenge
        .verify(&key.verifying_key(), "test-issuer", "test-key", 1_500, 5)
        .unwrap();
    let bytes = challenge.to_canonical_bytes();
    assert_eq!(
        SignedChallenge::from_canonical_bytes(&bytes).unwrap(),
        challenge
    );
}

#[test]
fn challenge_bytes_have_the_documented_layout() {
    let challenge = SignedChallenge::sign(payload(), &signing_key()).unwrap();
    let mut expected = vec![0, 1];
    expected.extend_from_slice(&11_u64.to_be_bytes());
    expected.extend_from_slice(b"test-issuer");
    expected.extend_from_slice(&8_u64.to_be_bytes());
    expected.extend_from_slice(b"test-key");
    expected.extend_from_slice(&1_000_i64.to_be_bytes());
    expected.extend_from_slice(&2_000_i64.to_be_bytes());
    expected.extend_from_slice(&[3; 32]);
    expected.extend_from_slice(&[4; 32]);
    expected.extend_from_slice(&[0, 1]);
    assert_eq!(challenge.payload_canonical_bytes(), expected);
    expected.extend_from_slice(challenge.signature.as_bytes());
    assert_eq!(challenge.to_canonical_bytes(), expected);
    assert_eq!(
        challenge.digest(),
        domain_separated_digest(b"sparse-solve/challenge/v1", &expected)
    );
}

#[test]
fn signatures_are_those_of_the_ed25519_implementation() {
    let challenge = SignedChallenge::sign(payload(), &signing_key()).unwrap();
    let mut message = Encoder::new();
    message.write_bytes(b"sparse-solve/challenge-signature/ed25519/v1");
    message.write_bytes(&challenge.payload_canonical_bytes());
    let reference = ed25519_dalek::SigningKey::from_bytes(&[7; 32]);
    assert_eq!(
        challenge.signature.as_bytes(),
        &reference.sign(&message.into_bytes()).to_bytes()
    );
    assert_eq!(
        signing_key().verifying_key().to_bytes(),
        reference.verifying_key().to_bytes()
    );
    let other = SigningKey::from_bytes(&[8; 32]).verifying_key();
    assert_eq!(
        challenge.verify(&other, "test-issuer", "test-key", 1_500, 5),
        Err(ProtocolError::InvalidSignature)
    );
    let not_a_point = VerifyingKey::from_bytes([2; 32]);
    assert_eq!(
        challenge.verify(&not_a_point, "test-issuer", "test-key", 1_500, 5),
        Err(ProtocolError::InvalidSignature)
    );
}

#[test]
fn fast_v3_has_a_fresh_wire_id() {
    assert_eq!(ProofProtocol::FastBinary64UnitCircleV3.wire_id(), 4);
    assert_eq!(
        ProofProtocol::from_wire_id(4),
        Some(ProofProtocol::FastBinary64UnitCircleV3)
    );
    assert_eq!(ProofProtocol::from_wire_id(3), None);
}

#[test]
fn wire_ids_name_their_protocols() {
    for protocol in [
        ProofProtocol::DirectReferenceV1,
        ProofProtocol::WhirField192L2V4,
        ProofProtocol::FastBinary64UnitCircleV3,
    ] {
        assert_eq!(
            ProofProtocol::from_wire_id(protocol.wire_id()),
            Some(protocol)
        );
    }
    for id in [0, 3, 5, u16::MAX] {
        assert_eq!(ProofProtocol::from_wire_id(id), None);
    }
}

#[test]
fn mutation_and_wrong_context_fail() {
    let key = signing_key();
    let challenge = SignedChallenge::sign(payload(), &key).unwrap();
    assert!(challenge
        .verify(&key.verifying_key(), "other", "test-key", 1_500, 5)
        .is_err());
    let mut changed = challenge.clone();
    changed.payload.entropy = Digest::from_bytes([9; 32]);
    assert!(changed
        .verify(&key.verifying_key(), "test-issuer", "test-key", 1_500, 5)
        .is_err());
    let mut unsafe_identifier = payload();
    unsafe_identifier.issuer = "terminal\ncontrol".to_owned();
    assert!(SignedChallenge::sign(unsafe_identifier, &key).is_err());
}

#[test]
fn every_challenge_refusal_has_an_input() {
    let key = signing_key();
    let public = key.verifying_key();
    let challenge = SignedChallenge::sign(payload(), &key).unwrap();
    let verify = |issuer, key_id, now, skew| challenge.verify(&public, issuer, key_id, now, skew);
    assert_eq!(verify("test-issuer", "test-key", 2_000, 0), Ok(()));
    assert_eq!(verify("test-issuer", "test-key", 995, 5), Ok(()));
    assert_eq!(verify("test-issuer", "test-key", 1_000, i64::MAX), Ok(()));
    assert_eq!(
        verify("test-issuer", "test-key", 994, 5),
        Err(ProtocolError::ChallengeFromFuture)
    );
    assert_eq!(
        verify("test-issuer", "test-key", 2_001, 5),
        Err(ProtocolError::ChallengeExpired { at: 2_000 })
    );
    assert_eq!(
        verify("test-issuer", "test-key", -1, 5),
        Err(ProtocolError::NegativeTimestamp)
    );
    assert_eq!(
        verify("test-issuer", "test-key", 1_500, -1),
        Err(ProtocolError::InvalidClockSkew)
    );
    assert_eq!(
        verify("other", "test-key", 1_500, 5),
        Err(ProtocolError::IssuerMismatch)
    );
    assert_eq!(
        verify("test-issuer", "other", 1_500, 5),
        Err(ProtocolError::KeyIdMismatch)
    );
    let mut forged = challenge.clone();
    forged.signature = SignatureBytes::from_bytes([5; 64]);
    assert_eq!(
        forged.verify(&public, "test-issuer", "test-key", 1_500, 5),
        Err(ProtocolError::InvalidSignature)
    );

    let mut negative = payload();
    negative.issued_at_unix_seconds = -1;
    assert_eq!(
        SignedChallenge::sign(negative, &key).unwrap_err(),
        ProtocolError::NegativeTimestamp
    );
    let mut empty_window = payload();
    empty_window.expires_at_unix_seconds = 1_000;
    assert_eq!(
        SignedChallenge::sign(empty_window, &key).unwrap_err(),
        ProtocolError::InvalidChallengeWindow
    );
    let mut long_key = payload();
    long_key.key_id = "k".repeat(MAX_ID_BYTES + 1);
    assert_eq!(
        SignedChallenge::sign(long_key, &key).unwrap_err(),
        ProtocolError::InvalidIdentifier { field: "key_id" }
    );
}

#[test]
fn identifiers_are_visible_ascii() {
    assert_eq!(validate_identifier("name", "!~"), Ok(()));
    assert_eq!(
        validate_identifier("name", &"x".repeat(MAX_ID_BYTES)),
        Ok(())
    );
    for invalid in ["", " ", "a b", "\u{7f}", "\u{e9}"] {
        assert_eq!(
            validate_identifier("name", invalid),
            Err(ProtocolError::InvalidIdentifier { field: "name" })
        );
    }
}

#[test]
fn every_malformed_challenge_is_refused() {
    let challenge = SignedChallenge::sign(payload(), &signing_key()).unwrap();
    let bytes = challenge.to_canonical_bytes();
    let refusal = |bytes: &[u8]| SignedChallenge::from_canonical_bytes(bytes).unwrap_err();
    for length in 0..bytes.len() {
        assert!(SignedChallenge::from_canonical_bytes(&bytes[..length]).is_err());
    }
    for extra in 1..=80 {
        let mut extended = bytes.clone();
        extended.extend_from_slice(&bytes[..extra]);
        assert!(SignedChallenge::from_canonical_bytes(&extended).is_err());
    }
    let mut trailing = bytes.clone();
    trailing.push(0);
    assert_eq!(
        refusal(&trailing),
        ProtocolError::Canonical {
            error: CanonicalError::Decode {
                error: DecodeError::TrailingBytes { remaining: 1 }
            }
        }
    );
    let mut schema = bytes.clone();
    schema[1] = 2;
    assert_eq!(
        refusal(&schema),
        ProtocolError::Canonical {
            error: CanonicalError::UnsupportedSchemaTag { tag: 2 }
        }
    );
    let mut retry = bytes.clone();
    let tag = retry.len() - 65;
    retry[tag] = 7;
    assert_eq!(
        refusal(&retry),
        ProtocolError::Canonical {
            error: CanonicalError::UnsupportedRetryTag { tag: 7 }
        }
    );
    let mut spelling = bytes.clone();
    spelling[10] = 0xff;
    assert_eq!(
        refusal(&spelling),
        ProtocolError::Canonical {
            error: CanonicalError::Decode {
                error: DecodeError::InvalidUtf8
            }
        }
    );
    let mut oversized = bytes.clone();
    oversized[8] = 2;
    assert_eq!(
        refusal(&oversized),
        ProtocolError::Canonical {
            error: CanonicalError::Decode {
                error: DecodeError::FieldTooLarge {
                    actual: 523,
                    maximum: MAX_ID_BYTES
                }
            }
        }
    );
    let too_large = vec![0; MAX_CHALLENGE_BYTES + 1];
    assert_eq!(
        refusal(&too_large),
        ProtocolError::Canonical {
            error: CanonicalError::Decode {
                error: DecodeError::InputTooLarge {
                    actual: MAX_CHALLENGE_BYTES + 1,
                    maximum: MAX_CHALLENGE_BYTES
                }
            }
        }
    );
    let mut spaced = bytes;
    spaced[10] = b' ';
    assert_eq!(
        refusal(&spaced),
        ProtocolError::InvalidIdentifier { field: "issuer" }
    );
}

#[test]
fn problem_context_ignores_signature_but_binds_payload() {
    let key = signing_key();
    let challenge = SignedChallenge::sign(payload(), &key).unwrap();
    let mut changed_signature = challenge.clone();
    let mut signature = *changed_signature.signature.as_bytes();
    signature[0] ^= 1;
    changed_signature.signature = SignatureBytes::from_bytes(signature);
    assert_eq!(
        challenge.payload_canonical_bytes(),
        changed_signature.payload_canonical_bytes()
    );

    let mut changed_payload = challenge.clone();
    changed_payload.payload.entropy = Digest::from_bytes([8; 32]);
    assert_ne!(
        challenge.payload_canonical_bytes(),
        changed_payload.payload_canonical_bytes()
    );
}

#[test]
fn certificate_signatures_bind_metrics_and_provenance() {
    let key = signing_key();
    let payload = certificate_payload(ProofProtocol::DirectReferenceV1, residual(0.25));
    let certificate = SignedCertificate::sign(payload, &key).unwrap();
    certificate
        .verify(&key.verifying_key(), "test-issuer", "test-key")
        .unwrap();
    assert_eq!(
        &encode_to_vec(&certificate.payload)[..2],
        &3_u16.to_be_bytes()
    );

    let mut changed = certificate.clone();
    changed.payload.score = residual(0.5);
    assert!(changed
        .verify(&key.verifying_key(), "test-issuer", "test-key")
        .is_err());

    let mut wrong_semantics = certificate.clone();
    wrong_semantics.payload.score = CertifiedScore::ExactDyadicSquaredL2V1 {
        numerator: Unsigned192::from_be_bytes([0; 24]),
        denominator_power: 136,
    };
    assert!(matches!(
        wrong_semantics.payload.validate(),
        Err(ProtocolError::ScoreProtocolMismatch)
    ));
}

#[test]
fn certificates_bind_their_provenance() {
    let key = signing_key();
    let payload = certificate_payload(ProofProtocol::DirectReferenceV1, residual(0.25));
    let certificate = SignedCertificate::sign(payload, &key).unwrap();
    let refusal = |certificate: &SignedCertificate| {
        certificate
            .verify(&key.verifying_key(), "test-issuer", "test-key")
            .unwrap_err()
    };
    let mut challenge = certificate.clone();
    challenge.payload.challenge_digest = Digest::from_bytes([9; 32]);
    assert_eq!(refusal(&challenge), ProtocolError::InvalidSignature);
    let mut proof = certificate.clone();
    proof.payload.proof_digest = Digest::from_bytes([9; 32]);
    assert_eq!(refusal(&proof), ProtocolError::InvalidSignature);
    let mut time = certificate.clone();
    time.payload.issued_at_unix_seconds = 1_501;
    assert_eq!(refusal(&time), ProtocolError::InvalidSignature);
    assert_ne!(time.digest(), certificate.digest());
    let mut early = certificate.clone();
    early.payload.issued_at_unix_seconds = -1;
    assert_eq!(refusal(&early), ProtocolError::NegativeTimestamp);
    let mut build = certificate.clone();
    build.payload.validator_build = "a b".to_owned();
    assert_eq!(
        refusal(&build),
        ProtocolError::InvalidIdentifier {
            field: "validator_build"
        }
    );
    assert_eq!(
        certificate
            .verify(&key.verifying_key(), "other", "test-key")
            .unwrap_err(),
        ProtocolError::IssuerMismatch
    );
    assert_eq!(
        certificate
            .verify(&key.verifying_key(), "test-issuer", "other")
            .unwrap_err(),
        ProtocolError::KeyIdMismatch
    );
    let mut digested = encode_to_vec(&certificate.payload);
    digested.extend_from_slice(certificate.signature.as_bytes());
    assert_eq!(
        certificate.digest(),
        domain_separated_digest(b"sparse-solve/certificate/v3", &digested)
    );
}

fn metrics_value(metrics: &DefectMetrics) -> serde_json::Value {
    let mut value = serde_json::Map::new();
    for (name, metric) in [
        ("maximum_absolute_defect", metrics.maximum_absolute_defect),
        (
            "maximum_normalized_defect",
            metrics.maximum_normalized_defect,
        ),
        ("rms_normalized_defect", metrics.rms_normalized_defect),
    ] {
        value.insert(
            name.to_owned(),
            serde_json::Value::from(f64::from_bits(metric.to_bits())),
        );
    }
    value.insert(
        "threshold_exceedances".to_owned(),
        serde_json::Value::from(metrics.threshold_exceedances),
    );
    serde_json::Value::Object(value)
}

fn read_metrics(value: &serde_json::Value) -> DefectMetrics {
    defects(
        value["maximum_absolute_defect"].as_f64().unwrap(),
        value["maximum_normalized_defect"].as_f64().unwrap(),
        value["rms_normalized_defect"].as_f64().unwrap(),
        value["threshold_exceedances"].as_u64().unwrap(),
    )
}

#[test]
fn signed_fast_certificate_survives_json_round_trip() {
    let key = signing_key();
    let zero = defects(0.0, 0.0, 0.0, 0);
    let matvec = defects(
        6.938_893_903_907_228e-18,
        2.104_791_105_834_217_8e-5,
        9.914_397_065_476_954e-6,
        0,
    );
    let certificate = SignedCertificate::sign(
        certificate_payload(
            ProofProtocol::FastBinary64UnitCircleV3,
            CertifiedScore::FastBinary64SquaredL2V1 {
                squared_l2: metric(0.0),
                consistency: FastConsistencyMetrics {
                    norm_sumcheck: zero,
                    matvec_sumcheck: matvec,
                    linear_opening: zero,
                    unit_circle_folds: zero,
                    recursive_query_trajectories: 32,
                },
            },
        ),
        &key,
    )
    .unwrap();

    let mut object = serde_json::Map::new();
    object.insert("zero".to_owned(), metrics_value(&zero));
    object.insert("matvec".to_owned(), metrics_value(&matvec));
    object.insert(
        "challenge_digest".to_owned(),
        serde_json::Value::from(certificate.payload.challenge_digest.to_hex()),
    );
    object.insert(
        "signature".to_owned(),
        serde_json::Value::from(certificate.signature.to_hex()),
    );
    let encoded = serde_json::to_vec(&serde_json::Value::Object(object)).unwrap();
    let value: serde_json::Value = serde_json::from_slice(&encoded).unwrap();

    let mut decoded = certificate.clone();
    let read_zero = read_metrics(&value["zero"]);
    decoded.payload.score = CertifiedScore::FastBinary64SquaredL2V1 {
        squared_l2: metric(0.0),
        consistency: FastConsistencyMetrics {
            norm_sumcheck: read_zero,
            matvec_sumcheck: read_metrics(&value["matvec"]),
            linear_opening: read_zero,
            unit_circle_folds: read_zero,
            recursive_query_trajectories: 32,
        },
    };
    decoded.payload.challenge_digest =
        Digest::from_hex(value["challenge_digest"].as_str().unwrap()).unwrap();
    decoded.signature = SignatureBytes::from_hex(value["signature"].as_str().unwrap()).unwrap();
    assert_eq!(
        encode_to_vec(&decoded.payload),
        encode_to_vec(&certificate.payload)
    );
    decoded
        .verify(&key.verifying_key(), "test-issuer", "test-key")
        .unwrap();
}

#[test]
fn fast_certificate_accepts_up_to_64_distinct_small_domain_queries() {
    let mut consistency = consistency(defects(0.0, 0.0, 0.0, 0));
    assert!(consistency.validate().is_ok());
    consistency.recursive_query_trajectories = 64;
    assert!(consistency.validate().is_ok());
    consistency.recursive_query_trajectories = 0;
    assert!(matches!(
        consistency.validate(),
        Err(ProtocolError::InvalidFastConsistency)
    ));
    consistency.recursive_query_trajectories = 65;
    assert!(matches!(
        consistency.validate(),
        Err(ProtocolError::InvalidFastConsistency)
    ));
}

#[test]
fn every_score_refusal_has_an_input() {
    let fast = |metrics| CertifiedScore::FastBinary64SquaredL2V1 {
        squared_l2: metric(1.0),
        consistency: consistency(metrics),
    };
    let protocol = ProofProtocol::FastBinary64UnitCircleV3;
    assert_eq!(
        fast(defects(9.0, 1.0, 0.5, 0)).validate_for(protocol),
        Ok(())
    );
    for metrics in [
        defects(-1.0, 0.0, 0.0, 0),
        defects(-0.0, 0.0, 0.0, 0),
        defects(0.0, f64::NAN, 0.0, 0),
        defects(0.0, 1.0 + f64::EPSILON, 0.0, 0),
        defects(0.0, 0.0, f64::INFINITY, 0),
        defects(0.0, 0.0, 0.0, 1),
    ] {
        assert_eq!(
            fast(metrics).validate_for(protocol),
            Err(ProtocolError::InvalidFastConsistency)
        );
    }
    assert_eq!(
        CertifiedScore::FastBinary64SquaredL2V1 {
            squared_l2: metric(-1.0),
            consistency: consistency(defects(0.0, 0.0, 0.0, 0)),
        }
        .validate_for(protocol),
        Err(ProtocolError::InvalidResidual)
    );
    assert_eq!(
        residual(f64::NAN).validate_for(ProofProtocol::DirectReferenceV1),
        Err(ProtocolError::InvalidResidual)
    );
    assert_eq!(
        residual(0.0).validate_for(protocol),
        Err(ProtocolError::ScoreProtocolMismatch)
    );
    let exact = |denominator_power| CertifiedScore::ExactDyadicSquaredL2V1 {
        numerator: Unsigned192::from_be_bytes([1; 24]),
        denominator_power,
    };
    for (power, expected) in [
        (0, Err(ProtocolError::InvalidExactDenominator)),
        (1, Ok(())),
        (512, Ok(())),
        (513, Err(ProtocolError::InvalidExactDenominator)),
    ] {
        assert_eq!(
            exact(power).validate_for(ProofProtocol::WhirField192L2V4),
            expected
        );
    }
}

#[test]
fn manifests_bound_their_limits() {
    let manifest = ValidationManifest::default();
    assert_eq!(manifest.schema, ValidationSchema::V1);
    assert_eq!(manifest.protocol, ProofProtocol::DirectReferenceV1);
    assert_eq!(manifest.max_solution_elements, 1 << 24);
    assert_eq!(manifest.max_public_matrix_terms, 4096);
    assert_eq!(manifest.max_public_rhs_terms, 4096);
    assert_eq!(manifest.validate(), Ok(()));
    let mut encoded = vec![0, 1, 0, 1];
    encoded.extend_from_slice(&(1_u64 << 24).to_be_bytes());
    encoded.extend_from_slice(&4096_u64.to_be_bytes());
    encoded.extend_from_slice(&4096_u64.to_be_bytes());
    assert_eq!(encode_to_vec(&manifest), encoded);
    assert_eq!(
        manifest.digest().unwrap(),
        domain_separated_digest(b"sparse-solve/validation-manifest/v1", &encoded)
    );
    for elements in [0, MAX_SOLUTION_ELEMENTS_LIMIT + 1] {
        let refused = ValidationManifest {
            max_solution_elements: elements,
            ..manifest
        };
        assert_eq!(
            refused.validate(),
            Err(ProtocolError::InvalidSolutionLimit)
        );
        assert_eq!(
            refused.digest().unwrap_err(),
            ProtocolError::InvalidSolutionLimit
        );
    }
    for terms in [0, MAX_PUBLIC_EVALUATION_TERMS_LIMIT + 1] {
        assert_eq!(
            ValidationManifest {
                max_public_matrix_terms: terms,
                ..manifest
            }
            .validate(),
            Err(ProtocolError::InvalidPublicEvaluationLimit)
        );
        assert_eq!(
            ValidationManifest {
                max_public_rhs_terms: terms,
                ..manifest
            }
            .validate(),
            Err(ProtocolError::InvalidPublicEvaluationLimit)
        );
    }
}

#[test]
fn hexadecimal_spellings_are_strict() {
    let digest = Digest::from_bytes([0xab; 32]);
    assert_eq!(digest.to_hex(), "ab".repeat(32));
    assert_eq!(Digest::from_hex(&"ab".repeat(32)), Some(digest));
    assert_eq!(Digest::from_hex(&"AB".repeat(32)), None);
    assert_eq!(Digest::from_hex(&"ab".repeat(31)), None);
    assert_eq!(Digest::from_hex(&"zz".repeat(32)), None);
    let number = Unsigned192::from_be_bytes([0x1f; 24]);
    assert_eq!(number.to_hex(), "1f".repeat(24));
    assert_eq!(Unsigned192::from_hex(&"1f".repeat(24)), Some(number));
    assert_eq!(Unsigned192::from_hex(&"1F".repeat(24)), None);
    assert_eq!(number.as_be_bytes(), &[0x1f; 24]);
    let signature = SignatureBytes::from_bytes([9; 64]);
    assert_eq!(signature.to_hex(), "09".repeat(64));
    assert_eq!(
        SignatureBytes::from_hex(&"09".repeat(64)),
        Some(signature)
    );
    assert_eq!(SignatureBytes::from_hex(&"09".repeat(63)), None);
}

#[test]
fn digests_are_framed_hashes() {
    let digest = domain_separated_digest(b"domain", b"payload");
    let mut framed = Encoder::with_capacity(64);
    framed.write_bytes(b"domain");
    framed.write_bytes(b"payload");
    assert_eq!(
        digest.into_bytes(),
        *blake3::hash(&framed.into_bytes()).as_bytes()
    );
    assert_ne!(digest, domain_separated_digest(b"domainp", b"ayload"));
}

#[test]
fn readers_give_back_what_encoders_wrote() {
    let mut encoder = Encoder::new();
    encoder.write_u8(7);
    encoder.write_u16(0x0102);
    encoder.write_u32(0x0102_0304);
    encoder.write_u64(u64::MAX - 1);
    encoder.write_i64(-2);
    encoder.write_fixed_bytes(&[1, 2, 3]);
    encoder.write_bytes(b"bytes");
    encoder.write_str("text \u{e9}");
    encoder.write_digest(&Digest::from_bytes([6; 32]));
    let bytes = encoder.into_bytes();
    let limits = DecodeLimits {
        max_input_bytes: bytes.len(),
        max_field_bytes: 16,
    };
    let mut reader = Reader::new(&bytes, limits).unwrap();
    assert_eq!(reader.read_u8(), Ok(7));
    assert_eq!(reader.read_u16(), Ok(0x0102));
    assert_eq!(reader.read_u32(), Ok(0x0102_0304));
    assert_eq!(reader.read_u64(), Ok(u64::MAX - 1));
    assert_eq!(reader.read_i64(), Ok(-2));
    assert_eq!(reader.read_fixed_bytes(3), Ok(&[1_u8, 2, 3][..]));
    assert_eq!(reader.read_bytes(5), Ok(&b"bytes"[..]));
    assert_eq!(reader.read_str(16), Ok("text \u{e9}".to_owned()));
    assert!(matches!(
        reader.finish(),
        Err(DecodeError::TrailingBytes { remaining: 32 })
    ));
    assert_eq!(reader.read_digest(), Ok(Digest::from_bytes([6; 32])));
    assert_eq!(reader.finish(), Ok(()));
    assert_eq!(reader.read_u8(), Err(DecodeError::UnexpectedEnd));
}
