use sparse_solver_validator::{
    derive_instance_seed, derive_subseed, encode_to_vec, BoundaryRule, CanonicalContextBytes,
    DiagonalConstruction, Dyadic, FinalizedRandomness, InstanceSeed, MatrixSpec,
    OffDiagonalValues, ProblemDigest, ProblemError, ProblemSchema, ProblemTemplate,
    ProblemTemplateDigest, PublicEvaluationTerms, RequestedOutput, RhsSpec, SeedDerivation,
    SuccinctPublicEvaluator, SymmetricDiaEdge, TemplateRandomness, TemplateSchema,
    MAX_CHALLENGE_CONTEXT_BYTES, MAX_DIMENSION, MAX_EDGE_DIAGONALS, MAX_EXACT_BINARY64_MANTISSA,
    MAX_FRACTIONAL_BITS, MAX_PERIOD_BITS,
};

fn matrix(dimension: u64) -> MatrixSpec {
    MatrixSpec::SeededSymmetricTridiagonalV1 {
        dimension,
        boundary: BoundaryRule::TruncateV1,
        off_diagonal: OffDiagonalValues::SeededPeriodicNegativeDyadicV1 {
            period_bits: 4,
            fractional_bits: 20,
            minimum_magnitude_mantissa: 3,
            maximum_magnitude_mantissa: 100,
        },
        diagonal: DiagonalConstruction::AbsoluteRowSumPlusMarginV1 {
            margin_mantissa: 17,
        },
    }
}

fn tridiagonal(
    dimension: u64,
    period_bits: u8,
    fractional_bits: u8,
    minimum: u64,
    maximum: u64,
    margin: u64,
) -> MatrixSpec {
    MatrixSpec::SeededSymmetricTridiagonalV1 {
        dimension,
        boundary: BoundaryRule::TruncateV1,
        off_diagonal: OffDiagonalValues::SeededPeriodicNegativeDyadicV1 {
            period_bits,
            fractional_bits,
            minimum_magnitude_mantissa: minimum,
            maximum_magnitude_mantissa: maximum,
        },
        diagonal: DiagonalConstruction::AbsoluteRowSumPlusMarginV1 {
            margin_mantissa: margin,
        },
    }
}

fn dia(dimension: u64, fractional_bits: u8, shift: u64, edges: Vec<SymmetricDiaEdge>) -> MatrixSpec {
    MatrixSpec::SeededSymmetricDiaLaplacianV1 {
        dimension,
        boundary: BoundaryRule::TruncateV1,
        fractional_bits,
        diagonal_shift_mantissa: shift,
        edge_diagonals: edges,
    }
}

fn edge(offset: u64, period_bits: u8, minimum: u64, maximum: u64) -> SymmetricDiaEdge {
    SymmetricDiaEdge {
        positive_offset: offset,
        period_bits,
        minimum_weight_mantissa: minimum,
        maximum_weight_mantissa: maximum,
    }
}

fn row_sparse(dimension: u64, half: u64, width: u8, minimum: i64, maximum: i64) -> MatrixSpec {
    MatrixSpec::SeededNonsymmetricRowSparseV1 {
        dimension,
        boundary: BoundaryRule::TruncateV1,
        row_pattern_bits: 3,
        maximum_half_bandwidth: half,
        maximum_nonzeros_per_row: width,
        fractional_bits: 8,
        minimum_mantissa: minimum,
        maximum_mantissa: maximum,
    }
}

fn template() -> ProblemTemplate {
    ProblemTemplate {
        schema: TemplateSchema::V1,
        randomness: TemplateRandomness::LiteralV1 {
            seed: InstanceSeed::from_bytes([0x5a; 32]),
        },
        matrix: matrix(1_000),
        rhs: RhsSpec::ManufacturedOnesV1,
        requested_outputs: vec![RequestedOutput::SquaredL2ResidualV1],
    }
}

fn with_matrix(matrix: MatrixSpec) -> ProblemTemplate {
    let mut value = template();
    value.matrix = matrix;
    value
}

fn derived() -> ProblemTemplate {
    let mut value = template();
    value.randomness = TemplateRandomness::ChallengeDerivedV1 {
        derivation: SeedDerivation::Blake3XofV1,
    };
    value
}

#[test]
fn dyadic_scale_conversion_has_frozen_exact_bits() {
    assert_eq!(
        Dyadic::new(1, 0).to_f64().to_bits(),
        0x3ff0_0000_0000_0000
    );
    assert_eq!(
        Dyadic::new(1, 52).to_f64().to_bits(),
        0x3cb0_0000_0000_0000
    );
    assert_eq!(
        Dyadic::new(1, 255).to_f64().to_bits(),
        0x3000_0000_0000_0000
    );
    assert_eq!(
        f64::from_bits(Dyadic::new(-3, 1).to_f64().to_bits()),
        -1.5
    );
}

#[test]
fn dyadics_beyond_the_exact_range_are_rounded_to_even() {
    let limit = MAX_EXACT_BINARY64_MANTISSA as i64;
    assert_eq!(
        f64::from_bits(Dyadic::new(limit, 0).to_f64().to_bits()),
        limit as f64
    );
    assert_eq!(Dyadic::new(0, 9).to_f64().to_bits(), 0);
    for mantissa in [
        limit + 1,
        limit + 2,
        limit + 4,
        -(limit + 2),
        (1 << 60) + 384,
        (1 << 60) + 128,
        (1 << 62) - 1,
        i64::MAX,
        i64::MIN,
    ] {
        for fractional_bits in [0_u8, 20, 52, 255] {
            let scale = f64::from_bits((1023_u64 - u64::from(fractional_bits)) << 52);
            assert_eq!(
                Dyadic::new(mantissa, fractional_bits).to_f64().to_bits(),
                ((mantissa as f64) * scale).to_bits()
            );
        }
    }
}

#[test]
fn canonical_digests_bind_parameters_seed_and_context() {
    let original = template();
    let mut changed_dimension = original.clone();
    changed_dimension.matrix = matrix(1_001);
    assert_ne!(
        original.digest().unwrap(),
        changed_dimension.digest().unwrap()
    );

    let mut changed_rhs = original.clone();
    changed_rhs.rhs = RhsSpec::SeededPeriodicDyadicV1 {
        period_bits: 2,
        fractional_bits: 8,
        minimum_mantissa: -4,
        maximum_mantissa: 7,
    };
    assert_ne!(original.digest().unwrap(), changed_rhs.digest().unwrap());

    let mut derived = original;
    derived.randomness = TemplateRandomness::ChallengeDerivedV1 {
        derivation: SeedDerivation::Blake3XofV1,
    };
    let first = derived.finalize_with_challenge_context(b"first").unwrap();
    let second = derived.finalize_with_challenge_context(b"second").unwrap();
    assert_ne!(first.instance_seed(), second.instance_seed());
    assert_ne!(first.digest().unwrap(), second.digest().unwrap());
}

#[test]
fn canonical_bytes_differ_wherever_templates_differ() {
    let mut seeds = template();
    seeds.randomness = TemplateRandomness::LiteralV1 {
        seed: InstanceSeed::from_bytes([77; 32]),
    };
    let values = [
        template(),
        derived(),
        seeds,
        with_matrix(matrix(1_001)),
        with_matrix(dia(1_000, 8, 1, vec![edge(1, 2, 3, 4)])),
        with_matrix(dia(1_000, 8, 1, vec![edge(1, 2, 3, 5)])),
        with_matrix(dia(1_000, 8, 1, vec![edge(1, 2, 3, 4), edge(2, 2, 3, 4)])),
        with_matrix(row_sparse(1_000, 5, 7, -256, 256)),
        with_matrix(row_sparse(1_000, 5, 7, -256, 255)),
        with_matrix(row_sparse(1_000, 5, 6, -256, 256)),
    ];
    for (position, value) in values.iter().enumerate() {
        let encoded = encode_to_vec(value);
        for other in &values[..position] {
            let earlier = encode_to_vec(other);
            assert_ne!(encoded, earlier);
            assert!(!encoded.starts_with(&earlier) && !earlier.starts_with(&encoded));
        }
    }
    let first = derived().finalize_with_challenge_context(b"ab").unwrap();
    let second = derived().finalize_with_challenge_context(b"abc").unwrap();
    assert_ne!(encode_to_vec(&first), encode_to_vec(&second));
    assert_ne!(
        encode_to_vec(&first),
        encode_to_vec(&template().finalize_literal().unwrap())
    );
}

#[test]
fn validation_enforces_resource_and_arithmetic_caps() {
    let mut value = template();
    value.matrix = matrix(1);
    assert!(matches!(
        value.validate(),
        Err(ProblemError::InvalidDimension { actual: 1 })
    ));

    value.matrix = MatrixSpec::SeededSymmetricTridiagonalV1 {
        dimension: 10,
        boundary: BoundaryRule::TruncateV1,
        off_diagonal: OffDiagonalValues::SeededPeriodicNegativeDyadicV1 {
            period_bits: MAX_PERIOD_BITS + 1,
            fractional_bits: 8,
            minimum_magnitude_mantissa: 1,
            maximum_magnitude_mantissa: 2,
        },
        diagonal: DiagonalConstruction::AbsoluteRowSumPlusMarginV1 { margin_mantissa: 1 },
    };
    assert!(matches!(
        value.validate(),
        Err(ProblemError::PeriodTooLarge { .. })
    ));

    value.matrix = MatrixSpec::SeededSymmetricTridiagonalV1 {
        dimension: 10,
        boundary: BoundaryRule::TruncateV1,
        off_diagonal: OffDiagonalValues::SeededPeriodicNegativeDyadicV1 {
            period_bits: 1,
            fractional_bits: 8,
            minimum_magnitude_mantissa: 1,
            maximum_magnitude_mantissa: MAX_EXACT_BINARY64_MANTISSA,
        },
        diagonal: DiagonalConstruction::AbsoluteRowSumPlusMarginV1 { margin_mantissa: 1 },
    };
    assert!(matches!(
        value.validate(),
        Err(ProblemError::CoefficientTooLarge)
    ));
}

#[test]
fn every_matrix_refusal_has_an_input() {
    assert_eq!(
        with_matrix(matrix(MAX_DIMENSION + 1)).validate(),
        Err(ProblemError::InvalidDimension {
            actual: MAX_DIMENSION + 1
        })
    );
    assert_eq!(
        with_matrix(tridiagonal(10, 1, MAX_FRACTIONAL_BITS + 1, 1, 2, 1)).validate(),
        Err(ProblemError::FractionalBitsTooLarge {
            actual: MAX_FRACTIONAL_BITS + 1
        })
    );
    assert_eq!(
        with_matrix(tridiagonal(10, 1, 8, 0, 2, 1)).validate(),
        Err(ProblemError::InvalidOffDiagonalRange)
    );
    assert_eq!(
        with_matrix(tridiagonal(10, 1, 8, 3, 2, 1)).validate(),
        Err(ProblemError::InvalidOffDiagonalRange)
    );
    assert_eq!(
        with_matrix(tridiagonal(10, 1, 8, 1, 2, 0)).validate(),
        Err(ProblemError::ZeroDominanceMargin)
    );
    assert!(matches!(
        with_matrix(tridiagonal(10, 1, 8, 1, u64::MAX, 1)).validate(),
        Err(ProblemError::IntegerOverflow(_))
    ));
    assert_eq!(
        with_matrix(dia(10, 8, 1, vec![])).validate(),
        Err(ProblemError::InvalidEdgeDiagonals)
    );
    assert_eq!(
        with_matrix(dia(10, 8, 1, vec![edge(2, 1, 1, 2), edge(2, 1, 1, 2)])).validate(),
        Err(ProblemError::InvalidEdgeDiagonals)
    );
    assert_eq!(
        with_matrix(dia(10, 8, 1, vec![edge(10, 1, 1, 2)])).validate(),
        Err(ProblemError::InvalidEdgeDiagonals)
    );
    let many: Vec<SymmetricDiaEdge> = (1..=MAX_EDGE_DIAGONALS as u64 + 1)
        .map(|offset| edge(offset, 1, 1, 2))
        .collect();
    assert_eq!(
        with_matrix(dia(1_000, 8, 1, many)).validate(),
        Err(ProblemError::InvalidEdgeDiagonals)
    );
    assert_eq!(
        with_matrix(dia(10, 8, 0, vec![edge(1, 1, 1, 2)])).validate(),
        Err(ProblemError::ZeroDominanceMargin)
    );
    assert_eq!(
        with_matrix(row_sparse(10, 10, 3, -1, 1)).validate(),
        Err(ProblemError::InvalidRowSparsity)
    );
    assert_eq!(
        with_matrix(row_sparse(10, 1, 4, -1, 1)).validate(),
        Err(ProblemError::InvalidRowSparsity)
    );
    assert_eq!(
        with_matrix(row_sparse(10, 1, 0, -1, 1)).validate(),
        Err(ProblemError::InvalidRowSparsity)
    );
    assert_eq!(
        with_matrix(row_sparse(10, 2, 3, 0, 0)).validate(),
        Err(ProblemError::InvalidCoefficientRange)
    );
    assert_eq!(
        with_matrix(row_sparse(10, 2, 3, 2, 1)).validate(),
        Err(ProblemError::InvalidCoefficientRange)
    );
    assert_eq!(
        with_matrix(row_sparse(10, 2, 3, i64::MIN, 1)).validate(),
        Err(ProblemError::CoefficientTooLarge)
    );
}

#[test]
fn every_rhs_and_output_refusal_has_an_input() {
    let rhs = |fractional_bits: u8, minimum: i64, maximum: i64| {
        let mut value = template();
        value.rhs = RhsSpec::SeededPeriodicDyadicV1 {
            period_bits: 2,
            fractional_bits,
            minimum_mantissa: minimum,
            maximum_mantissa: maximum,
        };
        value.validate()
    };
    assert_eq!(rhs(8, -4, 7), Ok(()));
    assert_eq!(rhs(8, 7, -4), Err(ProblemError::InvalidRhsRange));
    assert_eq!(
        rhs(8, i64::MIN, i64::MAX),
        Err(ProblemError::RhsRangeTooWide)
    );
    assert_eq!(
        rhs(8, 0, MAX_EXACT_BINARY64_MANTISSA as i64 + 1),
        Err(ProblemError::RhsMagnitudeTooLarge)
    );
    assert!(matches!(
        rhs(MAX_FRACTIONAL_BITS + 1, 0, 1),
        Err(ProblemError::FractionalBitsTooLarge { .. })
    ));

    let mut silent = template();
    silent.requested_outputs = vec![];
    assert_eq!(
        silent.validate(),
        Err(ProblemError::InvalidRequestedOutputs)
    );
    let mut doubled = template();
    doubled.requested_outputs = vec![RequestedOutput::SquaredL2ResidualV1; 2];
    assert!(doubled.validate().is_err());
    let mut flooded = template();
    flooded.requested_outputs = vec![RequestedOutput::SquaredL2ResidualV1; 1_000];
    assert_eq!(
        flooded.validate(),
        Err(ProblemError::TooManyRequestedOutputs { actual: 1_000 })
    );

    let manufactured = with_matrix(row_sparse(10, 2, 3, -1, 1));
    assert_eq!(
        manufactured
            .finalize_literal()
            .unwrap()
            .compile()
            .unwrap_err(),
        ProblemError::UnsupportedManufacturedRhs
    );
}

#[test]
fn finalization_follows_the_template_policy() {
    assert_eq!(
        template().finalize(b"context").unwrap_err(),
        ProblemError::UnexpectedChallengeContext
    );
    assert_eq!(
        template()
            .finalize_with_challenge_context(b"context")
            .unwrap_err(),
        ProblemError::ExpectedChallengeDerivedRandomness
    );
    assert_eq!(
        derived().finalize_literal().unwrap_err(),
        ProblemError::ExpectedLiteralRandomness
    );
    let oversized = vec![0_u8; MAX_CHALLENGE_CONTEXT_BYTES + 1];
    assert_eq!(
        derived()
            .finalize_with_challenge_context(&oversized)
            .unwrap_err(),
        ProblemError::ChallengeContextTooLarge
    );

    let finalized = derived().finalize(b"context").unwrap();
    assert_eq!(finalized.template(), derived());
    assert!(finalized.randomness().is_challenge_derived());
    assert_eq!(
        finalized
            .randomness()
            .challenge_context()
            .unwrap()
            .canonical_bytes(),
        b"context"
    );
    assert_eq!(
        finalized.instance_seed(),
        derive_instance_seed(derived().digest().unwrap(), b"context")
    );
    assert_eq!(
        template()
            .finalize_literal()
            .unwrap()
            .verify_challenge_context(b"context"),
        Err(ProblemError::ExpectedChallengeDerivedRandomness)
    );
}

#[test]
fn every_recorded_value_of_a_derived_problem_is_recomputed() {
    let problem = derived().finalize(b"context").unwrap();
    let mut other_dimension = problem.clone();
    other_dimension.schema = ProblemSchema::V1;
    other_dimension.matrix = matrix(999);
    assert!(matches!(
        other_dimension.validate(),
        Err(ProblemError::TemplateDigestMismatch { .. })
    ));

    let mut other_context = problem.clone();
    if let FinalizedRandomness::ChallengeDerivedV1 {
        challenge_context, ..
    } = &mut other_context.randomness
    {
        let other = derived().finalize(b"contexT").unwrap();
        if let FinalizedRandomness::ChallengeDerivedV1 {
            challenge_context: replacement,
            ..
        } = other.randomness
        {
            *challenge_context = replacement;
        }
    }
    assert_eq!(
        other_context.validate(),
        Err(ProblemError::ChallengeContextDigestMismatch)
    );
    assert_eq!(problem.validate(), Ok(()));
}

#[test]
fn seed_json_is_strict_lowercase_hex() {
    let seed = InstanceSeed::from_bytes([0xab; 32]);
    let spelling = seed.to_hex();
    assert_eq!(spelling, "ab".repeat(32));
    assert_eq!(InstanceSeed::from_hex(&spelling).unwrap(), seed);
    assert!(InstanceSeed::from_hex(&"AB".repeat(32)).is_err());
    assert!(InstanceSeed::from_hex("00").is_err());
}

#[test]
fn contexts_and_digests_have_one_spelling() {
    let context = CanonicalContextBytes::new(vec![0, 255, 16]).unwrap();
    assert_eq!(context.to_hex(), "00ff10");
    assert_eq!(CanonicalContextBytes::from_hex("00ff10").unwrap(), context);
    assert_eq!(
        CanonicalContextBytes::from_hex("00ff1").unwrap_err(),
        "challenge context must be even-length lowercase hexadecimal"
    );
    assert_eq!(
        CanonicalContextBytes::from_hex("00FF10").unwrap_err(),
        "challenge context must be even-length lowercase hexadecimal"
    );
    let oversized = "00".repeat(MAX_CHALLENGE_CONTEXT_BYTES + 1);
    assert_eq!(
        CanonicalContextBytes::from_hex(&oversized).unwrap_err(),
        "challenge context exceeds the configured byte limit"
    );
    assert!(CanonicalContextBytes::new(vec![0; MAX_CHALLENGE_CONTEXT_BYTES + 1]).is_err());

    let digest = template().digest().unwrap();
    assert_eq!(
        ProblemTemplateDigest::from_hex(&digest.to_hex()),
        Some(digest)
    );
    let digest = template().finalize_literal().unwrap().digest().unwrap();
    assert_eq!(ProblemDigest::from_hex(&digest.to_hex()), Some(digest));
    assert_eq!(ProblemDigest::from_hex("ab"), None);
}

#[test]
fn subseed_labels_are_domain_separated() {
    let seed = InstanceSeed::from_bytes([7; 32]);
    assert_eq!(
        derive_subseed(seed, "matrix/values"),
        derive_subseed(seed, "matrix/values")
    );
    assert_ne!(
        derive_subseed(seed, "matrix/values"),
        derive_subseed(seed, "rhs/values")
    );
}

#[test]
fn subseeds_are_keyed_blake3_outputs() {
    let seed = InstanceSeed::from_bytes([7; 32]);
    assert_ne!(derive_subseed(seed, "matrix/values"), seed);
    assert_ne!(
        derive_instance_seed(derived().digest().unwrap(), b"a"),
        derive_instance_seed(derived().digest().unwrap(), b"b")
    );
}

#[test]
fn template_terms_are_those_of_the_compiled_problem() {
    let rhs = RhsSpec::SeededPeriodicDyadicV1 {
        period_bits: 3,
        fractional_bits: 8,
        minimum_mantissa: -16,
        maximum_mantissa: 19,
    };
    for (matrix, expected) in [
        (tridiagonal(8, 4, 8, 1, 2, 8), 8),
        (tridiagonal(1_000, 4, 8, 1, 2, 8), 16),
        (
            dia(8, 8, 64, vec![edge(1, 2, 2, 7), edge(3, 1, 1, 5)]),
            6,
        ),
        (
            dia(4, 8, 64, vec![edge(1, 5, 2, 7), edge(3, 5, 1, 5)]),
            4,
        ),
        (row_sparse(12, 5, 7, -4_096, 4_096), 56),
    ] {
        let mut value = with_matrix(matrix);
        value.rhs = rhs;
        let terms = value.public_evaluation_terms().unwrap();
        assert_eq!(terms.matrix_period_terms, expected);
        let compiled = value.finalize_literal().unwrap().compile().unwrap();
        let metadata = compiled.public_evaluation_plan().metadata();
        assert_eq!(
            terms,
            PublicEvaluationTerms {
                matrix_period_terms: metadata.matrix_period_terms as u64,
                rhs_period_terms: metadata.rhs_period_terms as u64,
            }
        );
    }
    assert!(with_matrix(matrix(1)).public_evaluation_terms().is_err());
}
