use sparse_solver_validator::{
    audit_field_modulus, maximum_absolute_logical_rhs_mantissa, no_wrap_bounds, Binary64,
    BoundaryRule, DiagonalConstruction, ExactArithmeticBounds, ExactRelation, ExactRelationPlan,
    FixedWitness, GeneratedProblem, InstanceSeed, MatrixSpec, Natural, OffDiagonalValues,
    ProblemTemplate, RelationError, RequestedOutput, RhsSpec, Solution, SuccinctPublicEvaluator,
    TemplateRandomness, TemplateSchema, EXACT_RELATION_PROFILE_V1, RESIDUAL_MAGNITUDE_BITS,
    WITNESS_FRACTIONAL_BITS, WITNESS_MAGNITUDE_BITS,
};

fn problem(dimension: u64) -> GeneratedProblem {
    ProblemTemplate {
        schema: TemplateSchema::V1,
        randomness: TemplateRandomness::LiteralV1 {
            seed: InstanceSeed::from_bytes([9; 32]),
        },
        matrix: MatrixSpec::SeededSymmetricTridiagonalV1 {
            dimension,
            boundary: BoundaryRule::TruncateV1,
            off_diagonal: OffDiagonalValues::SeededPeriodicNegativeDyadicV1 {
                period_bits: 2,
                fractional_bits: 4,
                minimum_magnitude_mantissa: 1,
                maximum_magnitude_mantissa: 3,
            },
            diagonal: DiagonalConstruction::AbsoluteRowSumPlusMarginV1 { margin_mantissa: 8 },
        },
        rhs: RhsSpec::ManufacturedOnesV1,
        requested_outputs: vec![RequestedOutput::SquaredL2ResidualV1],
    }
    .finalize_literal()
    .unwrap()
    .compile()
    .unwrap()
}

fn seeded_rhs_problem(dimension: u64) -> GeneratedProblem {
    ProblemTemplate {
        schema: TemplateSchema::V1,
        randomness: TemplateRandomness::LiteralV1 {
            seed: InstanceSeed::from_bytes([10; 32]),
        },
        matrix: MatrixSpec::SeededSymmetricTridiagonalV1 {
            dimension,
            boundary: BoundaryRule::TruncateV1,
            off_diagonal: OffDiagonalValues::SeededPeriodicNegativeDyadicV1 {
                period_bits: 3,
                fractional_bits: 8,
                minimum_magnitude_mantissa: 1,
                maximum_magnitude_mantissa: 3,
            },
            diagonal: DiagonalConstruction::AbsoluteRowSumPlusMarginV1 { margin_mantissa: 8 },
        },
        rhs: RhsSpec::SeededPeriodicDyadicV1 {
            period_bits: 2,
            fractional_bits: 6,
            minimum_mantissa: -3,
            maximum_mantissa: 7,
        },
        requested_outputs: vec![RequestedOutput::SquaredL2ResidualV1],
    }
    .finalize_literal()
    .unwrap()
    .compile()
    .unwrap()
}

fn solution(values: Vec<f64>) -> Solution {
    let length = values.len();
    let bits = values.into_iter().map(f64::to_bits).collect();
    Solution::from_bits(bits, length).unwrap()
}

fn binary64_to_q63_64(value: f64) -> Option<i128> {
    Binary64::from_bits(value.to_bits()).to_q63_64()
}

fn reference(number: &Natural) -> num_bigint::BigUint {
    num_bigint::BigUint::new(number.digits().to_vec())
}

fn natural(number: &num_bigint::BigUint) -> Natural {
    Natural::from_digits(number.to_u32_digits())
}

#[test]
fn conversion_is_exact_for_representative_binary64_values() {
    for (value, expected) in [
        (0.0, 0),
        (1.0, 1_i128 << 64),
        (-1.0, -(1_i128 << 64)),
        (0.5, 1_i128 << 63),
        (2.0_f64.powi(-64), 1),
        (-2.0_f64.powi(-65), -1),
        (2.0_f64.powi(-66), 0),
    ] {
        assert_eq!(binary64_to_q63_64(value), Some(expected));
    }
    assert_eq!(binary64_to_q63_64(2.0_f64.powi(63)), None);
    assert!(binary64_to_q63_64(f64::from_bits(2.0_f64.powi(63).to_bits() - 1)).is_some());
    assert_eq!(binary64_to_q63_64(2.0_f64.powi(70)), None);
    assert_eq!(binary64_to_q63_64(-2.0_f64.powi(70)), None);
    assert_eq!(binary64_to_q63_64(-2.0_f64.powi(63)), Some(i128::MIN));
    assert_eq!(
        binary64_to_q63_64(f64::from_bits((-2.0_f64.powi(63)).to_bits() + 1)),
        None
    );
    assert_eq!(EXACT_RELATION_PROFILE_V1.version(), 1);
    assert_eq!(WITNESS_FRACTIONAL_BITS, 64);
    assert_eq!(WITNESS_MAGNITUDE_BITS, 127);
    assert_eq!(RESIDUAL_MAGNITUDE_BITS, 68);
}

#[test]
fn conversion_refuses_what_solutions_refuse() {
    assert_eq!(binary64_to_q63_64(f64::NAN), None);
    assert_eq!(binary64_to_q63_64(f64::INFINITY), None);
    assert_eq!(binary64_to_q63_64(-0.0), None);
    assert_eq!(binary64_to_q63_64(f64::from_bits(1)), None);
    assert_eq!(binary64_to_q63_64(1.5 * 2.0_f64.powi(-64)), Some(2));
    assert_eq!(binary64_to_q63_64(-1.5 * 2.0_f64.powi(-64)), Some(-2));
}

#[test]
fn manufactured_ones_relation_is_exactly_zero() {
    let problem = problem(17);
    let solution = solution(vec![1.0; 17]);
    let relation = ExactRelation::from_solution(&problem, &solution).unwrap();
    assert!(relation.residuals().iter().all(|&value| value == 0));
    assert!(relation.squared_l2_numerator().is_zero());
    assert_eq!(relation.squared_l2_denominator_power(), 136);
    assert!(relation
        .witness()
        .as_slice()
        .iter()
        .all(|&value| value == 1_i128 << 64));
}

#[test]
fn nonzero_residual_uses_the_plan_denominator() {
    let problem = problem(17);
    let mut values = vec![1.0; 17];
    values[0] = f64::from_bits(1.0_f64.to_bits() + 1);
    let relation = ExactRelation::from_solution(&problem, &solution(values)).unwrap();
    let plan = ExactRelationPlan::from_problem(&problem).unwrap();
    assert!(relation.residuals().iter().any(|&value| value != 0));
    assert!(!relation.squared_l2_numerator().is_zero());
    assert_eq!(
        relation.squared_l2_denominator_power(),
        plan.squared_l2_denominator_power()
    );
}

#[test]
fn residuals_are_the_integer_row_identities() {
    let problem = problem(5);
    let plan = ExactRelationPlan::from_problem(&problem).unwrap();
    let witness = [3_i128, -2, 7, 0, 1]
        .iter()
        .map(|difference| (1_i128 << 64) + difference)
        .collect::<Vec<_>>();
    let relation =
        ExactRelation::from_witness(&problem, FixedWitness::from_integers(witness.clone()))
            .unwrap();
    let mut norm = num_bigint::BigInt::from(0);
    for row in 0..5 {
        let mut product = 0_i128;
        let mut cursor = problem.row(row).unwrap();
        while let Some(entry) = cursor.next() {
            product += i128::from(entry.value.mantissa()) * witness[entry.column];
        }
        let rhs = i128::from(problem.rhs(row).unwrap().mantissa()) << plan.rhs_alignment_shift();
        assert_eq!(relation.residuals()[row], product - rhs);
        norm += num_bigint::BigInt::from(product - rhs) * (product - rhs);
    }
    assert!(relation.residuals().iter().any(|&value| value != 0));
    assert_eq!(
        num_bigint::BigInt::from(reference(relation.squared_l2_numerator())),
        norm
    );
}

#[test]
fn relation_refusals_have_inputs() {
    let problem = problem(17);
    assert_eq!(
        ExactRelation::from_witness(&problem, FixedWitness::from_integers(vec![0; 16]))
            .unwrap_err(),
        RelationError::WrongLength {
            expected: 17,
            actual: 16
        }
    );
    assert!(matches!(
        ExactRelation::from_solution(&problem, &solution(vec![1.0e10; 17])),
        Err(RelationError::ResidualOutOfRange { .. })
    ));
    assert!(matches!(
        ExactRelation::from_solution(&problem, &solution(vec![2.0_f64.powi(64); 17])),
        Err(RelationError::WitnessOutOfRange { .. })
    ));
}

#[test]
fn plan_is_identical_from_problem_and_verifier_metadata() {
    let problem = seeded_rhs_problem(19);
    let from_problem = ExactRelationPlan::from_problem(&problem).unwrap();
    let metadata = problem.public_evaluation_plan().metadata();
    let from_metadata = ExactRelationPlan::from_metadata(metadata).unwrap();
    assert_eq!(from_problem, from_metadata);
    assert_eq!(from_problem.public_bounds(), metadata.exact_bounds);
    assert_eq!(from_problem.relation_fractional_bits(), 72);
    assert_eq!(from_problem.rhs_alignment_shift(), 66);
    assert_eq!(from_problem.squared_l2_denominator_power(), 144);

    let mut inconsistent = metadata;
    inconsistent.exact_bounds.logical_dimension += 1;
    assert!(matches!(
        ExactRelationPlan::from_metadata(inconsistent),
        Err(RelationError::InconsistentPublicBounds)
    ));
}

#[test]
fn plan_derivation_matches_reference_arithmetic_at_scale_extrema() {
    for (dimension, matrix_fractional_bits, rhs_fractional_bits) in
        [(2, 0, 52), (19, 8, 6), (1 << 30, 52, 0)]
    {
        let public_bounds = ExactArithmeticBounds {
            logical_dimension: dimension,
            matrix_fractional_bits,
            rhs_fractional_bits,
            maximum_absolute_row_sum_mantissa: 7,
            maximum_absolute_rhs_mantissa: 3,
        };
        let plan = ExactRelationPlan::from_public_bounds(public_bounds).unwrap();
        let relation_fractional_bits = 64 + u32::from(matrix_fractional_bits);
        let rhs_alignment_shift = relation_fractional_bits - u32::from(rhs_fractional_bits);
        let maximum_matrix = num_bigint::BigUint::from(7_u8) << 127;
        let maximum_rhs = num_bigint::BigUint::from(3_u8) << rhs_alignment_shift;
        let maximum_residual = num_bigint::BigUint::from(1_u8) << 68;
        assert_eq!(plan.relation_fractional_bits(), relation_fractional_bits);
        assert_eq!(plan.rhs_alignment_shift(), rhs_alignment_shift);
        assert_eq!(
            plan.squared_l2_denominator_power(),
            2 * relation_fractional_bits
        );
        assert_eq!(
            reference(&plan.no_wrap_bounds().maximum_matrix_term_magnitude),
            maximum_matrix
        );
        assert_eq!(
            reference(&plan.no_wrap_bounds().maximum_scaled_rhs_magnitude),
            maximum_rhs
        );
        assert_eq!(
            reference(&plan.no_wrap_bounds().maximum_row_identity_magnitude),
            &maximum_matrix + &maximum_rhs + maximum_residual
        );
        assert_eq!(
            reference(&plan.no_wrap_bounds().maximum_squared_l2_numerator),
            num_bigint::BigUint::from(dimension) << 136
        );
    }
}

#[test]
fn incompatible_scales_are_refused() {
    let bounds = ExactArithmeticBounds {
        logical_dimension: 2,
        matrix_fractional_bits: 0,
        rhs_fractional_bits: 65,
        maximum_absolute_row_sum_mantissa: 7,
        maximum_absolute_rhs_mantissa: 3,
    };
    assert_eq!(
        ExactRelationPlan::from_public_bounds(bounds).unwrap_err(),
        RelationError::IncompatibleScale
    );
    let empty = ExactArithmeticBounds {
        logical_dimension: 0,
        rhs_fractional_bits: 0,
        ..bounds
    };
    assert_eq!(
        ExactRelationPlan::from_public_bounds(empty).unwrap_err(),
        RelationError::InconsistentPublicBounds
    );
}

#[test]
fn feasibility_admission_is_conservative_at_its_magnitude_boundary() {
    let public_bounds = ExactArithmeticBounds {
        logical_dimension: 2,
        matrix_fractional_bits: 52,
        rhs_fractional_bits: 0,
        maximum_absolute_row_sum_mantissa: 1,
        // No-wrap metadata may conservatively count unused period entries.
        maximum_absolute_rhs_mantissa: 9_007_199_254_740_991,
    };
    let plan = ExactRelationPlan::from_public_bounds(public_bounds).unwrap();
    assert!(plan.ensure_feasible_public_magnitude(2_048).is_ok());

    assert!(matches!(
        plan.ensure_feasible_public_magnitude(2_049),
        Err(RelationError::InfeasiblePublicMagnitude)
    ));

    assert!(matches!(
        plan.ensure_feasible_public_magnitude(9_007_199_254_740_991),
        Err(RelationError::InfeasiblePublicMagnitude)
    ));
}

#[test]
fn feasibility_ignores_unused_rhs_period_entries() {
    let mut witnessed_unused_bound = false;
    for seed_byte in 0_u8..=u8::MAX {
        let problem = ProblemTemplate {
            schema: TemplateSchema::V1,
            randomness: TemplateRandomness::LiteralV1 {
                seed: InstanceSeed::from_bytes([seed_byte; 32]),
            },
            matrix: MatrixSpec::SeededSymmetricTridiagonalV1 {
                dimension: 2,
                boundary: BoundaryRule::TruncateV1,
                off_diagonal: OffDiagonalValues::SeededPeriodicNegativeDyadicV1 {
                    period_bits: 0,
                    fractional_bits: 52,
                    minimum_magnitude_mantissa: 1,
                    maximum_magnitude_mantissa: 1,
                },
                diagonal: DiagonalConstruction::AbsoluteRowSumPlusMarginV1 { margin_mantissa: 1 },
            },
            rhs: RhsSpec::SeededPeriodicDyadicV1 {
                period_bits: 3,
                fractional_bits: 0,
                minimum_mantissa: 0,
                maximum_mantissa: 20_000,
            },
            requested_outputs: vec![RequestedOutput::SquaredL2ResidualV1],
        }
        .finalize_literal()
        .unwrap()
        .compile()
        .unwrap();
        let plan_from_metadata =
            ExactRelationPlan::from_public_bounds(problem.exact_arithmetic_bounds()).unwrap();
        let logical_maximum = maximum_absolute_logical_rhs_mantissa(&problem);
        let metadata_maximum = problem.certificate().maximum_absolute_rhs_mantissa;
        if plan_from_metadata
            .ensure_feasible_public_magnitude(logical_maximum)
            .is_ok()
            && plan_from_metadata
                .ensure_feasible_public_magnitude(metadata_maximum)
                .is_err()
        {
            assert!(ExactRelationPlan::from_problem(&problem).is_ok());
            witnessed_unused_bound = true;
            break;
        }
    }
    assert!(
        witnessed_unused_bound,
        "deterministic seeds should cover a loose unused-period RHS bound"
    );
}

#[test]
fn no_wrap_bounds_are_public_and_conservative() {
    let problem = problem(1 << 10);
    let plan = ExactRelationPlan::from_problem(&problem).unwrap();
    let bounds = no_wrap_bounds(&problem).unwrap();
    assert_eq!(&bounds, plan.no_wrap_bounds());
    let row = reference(&bounds.maximum_row_identity_magnitude);
    let norm = reference(&bounds.maximum_squared_l2_numerator);
    assert!(row.bits() < 192);
    assert!(norm.bits() <= 147);
    let exact_boundary = row.max(norm);
    assert!(matches!(
        audit_field_modulus(&problem, &natural(&exact_boundary)),
        Err(RelationError::UnsafeFieldModulus)
    ));
    assert!(audit_field_modulus(&problem, &natural(&(exact_boundary + 1_u8))).is_ok());
}

#[test]
fn naturals_compute_like_arbitrary_precision_integers() {
    let first = Natural::from_u128(u128::MAX);
    let second = Natural::from_u64(12_345);
    assert_eq!(
        reference(&first.plus(&second)),
        reference(&first) + reference(&second)
    );
    assert_eq!(
        reference(&first.times(&second)),
        reference(&first) * reference(&second)
    );
    assert_eq!(reference(&second.shifted(200)), reference(&second) << 200);
    assert!(second.at_most(&first) && !first.at_most(&second));
    assert_eq!(Natural::from_digits(vec![5, 0, 0]), Natural::from_u64(5));
    assert!(Natural::from_u64(0).is_zero());
    assert!(Natural::from_u64(0).digits().is_empty());
    assert_eq!(Natural::from_u64(5).digits(), [5]);
    assert_eq!(Natural::from_digits(vec![7, 0, 9, 0, 0]).digits(), [7, 0, 9]);
    assert_eq!(Natural::from_u64(1 << 40).digits(), [0, 256]);
    assert_eq!(Natural::from_u64(1).shifted(64).digits(), [0, 0, 1]);
}
