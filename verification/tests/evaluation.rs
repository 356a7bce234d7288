use sparse_solver_validator::{
    validate_f64_point, Binary64, BooleanCoordinateOrder, BoundaryRule, DiagonalConstruction,
    GeneratedProblem, InstanceSeed, MatrixEntry, MatrixSpec, MleEvaluation, MleEvaluationError,
    MleInterpreter, OffDiagonalValues, ProblemTemplate, RequestedOutput, RhsSpec,
    SuccinctPublicEvaluator, SymmetricDiaEdge, TemplateRandomness, TemplateSchema,
};

const TEST_PRIME: u64 = (1_u64 << 61) - 1;

#[derive(Clone, Copy, Debug, Eq, PartialEq)]
struct TestField(u64);

impl TestField {
    fn new(value: u64) -> Self {
        Self(value % TEST_PRIME)
    }
}

struct TestInterpreter;

impl MleInterpreter for TestInterpreter {
    type Scalar = TestField;

    fn zero(&self) -> Self::Scalar {
        TestField(0)
    }

    fn one(&self) -> Self::Scalar {
        TestField(1)
    }

    fn embed_i64(&self, value: i64) -> Self::Scalar {
        if value >= 0 {
            TestField::new(value as u64)
        } else {
            let magnitude = value.unsigned_abs() % TEST_PRIME;
            TestField((TEST_PRIME - magnitude) % TEST_PRIME)
        }
    }

    fn add(&self, left: Self::Scalar, right: Self::Scalar) -> Self::Scalar {
        TestField::new(left.0 + right.0)
    }

    fn sub(&self, left: Self::Scalar, right: Self::Scalar) -> Self::Scalar {
        TestField::new(left.0 + TEST_PRIME - right.0)
    }

    fn mul(&self, left: Self::Scalar, right: Self::Scalar) -> Self::Scalar {
        TestField(((u128::from(left.0) * u128::from(right.0)) % u128::from(TEST_PRIME)) as u64)
    }
}

#[derive(Clone, Copy, Debug)]
struct TrackedF64 {
    value: f64,
    error_bound: f64,
}

fn source(value: f64) -> TrackedF64 {
    TrackedF64 {
        value,
        error_bound: 0.0,
    }
}

struct TrackedF64Interpreter;

impl MleInterpreter for TrackedF64Interpreter {
    type Scalar = TrackedF64;

    fn zero(&self) -> Self::Scalar {
        source(0.0)
    }

    fn one(&self) -> Self::Scalar {
        source(1.0)
    }

    fn embed_i64(&self, value: i64) -> Self::Scalar {
        source(value as f64)
    }

    fn add(&self, left: Self::Scalar, right: Self::Scalar) -> Self::Scalar {
        let rounding = f64::EPSILON * (left.value.abs() + right.value.abs()) + f64::from_bits(1);
        TrackedF64 {
            value: left.value + right.value,
            error_bound: left.error_bound + right.error_bound + rounding,
        }
    }

    fn sub(&self, left: Self::Scalar, right: Self::Scalar) -> Self::Scalar {
        let rounding = f64::EPSILON * (left.value.abs() + right.value.abs()) + f64::from_bits(1);
        TrackedF64 {
            value: left.value - right.value,
            error_bound: left.error_bound + right.error_bound + rounding,
        }
    }

    fn mul(&self, left: Self::Scalar, right: Self::Scalar) -> Self::Scalar {
        let value = left.value * right.value;
        let propagated = left.value.abs() * right.error_bound
            + right.value.abs() * left.error_bound
            + left.error_bound * right.error_bound;
        let rounding = f64::EPSILON * value.abs() + f64::from_bits(1);
        TrackedF64 {
            value,
            error_bound: propagated + rounding,
        }
    }
}

fn scaled(raw: MleEvaluation<TrackedF64>) -> TrackedF64 {
    let scale = f64::from_bits((1023_u64 - u64::from(raw.fractional_bits)) << 52);
    TrackedF64Interpreter.mul(raw.value, source(scale))
}

fn template(dimension: u64, rhs: RhsSpec) -> ProblemTemplate {
    ProblemTemplate {
        schema: TemplateSchema::V1,
        randomness: TemplateRandomness::LiteralV1 {
            seed: InstanceSeed::from_bytes([37; 32]),
        },
        matrix: MatrixSpec::SeededSymmetricTridiagonalV1 {
            dimension,
            boundary: BoundaryRule::TruncateV1,
            off_diagonal: OffDiagonalValues::SeededPeriodicNegativeDyadicV1 {
                period_bits: 3,
                fractional_bits: 8,
                minimum_magnitude_mantissa: 1,
                maximum_magnitude_mantissa: 12,
            },
            diagonal: DiagonalConstruction::AbsoluteRowSumPlusMarginV1 {
                margin_mantissa: 16,
            },
        },
        rhs,
        requested_outputs: vec![RequestedOutput::SquaredL2ResidualV1],
    }
}

fn generated(dimension: u64, rhs: RhsSpec) -> GeneratedProblem {
    template(dimension, rhs)
        .finalize_literal()
        .unwrap()
        .compile()
        .unwrap()
}

fn seeded_rhs() -> RhsSpec {
    RhsSpec::SeededPeriodicDyadicV1 {
        period_bits: 2,
        fractional_bits: 6,
        minimum_mantissa: -7,
        maximum_mantissa: 11,
    }
}

fn test_point(variables: usize, offset: i64) -> Vec<TestField> {
    (0..variables)
        .map(|coordinate| TestInterpreter.embed_i64(offset + coordinate as i64 * 3))
        .collect()
}

fn boolean_point(index: usize, variables: usize) -> Vec<TestField> {
    (0..variables)
        .map(|coordinate| {
            let bit = variables - 1 - coordinate;
            TestInterpreter.embed_i64(((index >> bit) & 1) as i64)
        })
        .collect()
}

fn entries(problem: &GeneratedProblem, row: usize) -> Vec<MatrixEntry> {
    let mut listed = Vec::new();
    let mut cursor = problem.row(row).unwrap();
    while let Some(entry) = cursor.next() {
        listed.push(entry);
    }
    listed
}

fn direct_weight<I: MleInterpreter>(
    interpreter: &I,
    point: &[I::Scalar],
    index: usize,
) -> I::Scalar {
    point
        .iter()
        .enumerate()
        .fold(interpreter.one(), |weight, (coordinate, &value)| {
            let bit = point.len() - 1 - coordinate;
            let factor = if ((index >> bit) & 1) == 0 {
                interpreter.sub(interpreter.one(), value)
            } else {
                value
            };
            interpreter.mul(weight, factor)
        })
}

fn scan_matrix<I: MleInterpreter>(
    interpreter: &I,
    problem: &GeneratedProblem,
    row_point: &[I::Scalar],
    column_point: &[I::Scalar],
) -> I::Scalar {
    let mut result = interpreter.zero();
    for row_index in 0..problem.dimension() {
        let row_weight = direct_weight(interpreter, row_point, row_index);
        for entry in entries(problem, row_index) {
            let column_weight = direct_weight(interpreter, column_point, entry.column);
            let pair = interpreter.mul(row_weight, column_weight);
            let coefficient = interpreter.embed_i64(entry.value.mantissa());
            let term = interpreter.mul(pair, coefficient);
            result = interpreter.add(result, term);
        }
    }
    result
}

fn scan_rhs<I: MleInterpreter>(
    interpreter: &I,
    problem: &GeneratedProblem,
    point: &[I::Scalar],
) -> I::Scalar {
    (0..problem.dimension()).fold(interpreter.zero(), |result, row| {
        let weight = direct_weight(interpreter, point, row);
        let rhs = interpreter.embed_i64(problem.rhs(row).unwrap().mantissa());
        interpreter.add(result, interpreter.mul(weight, rhs))
    })
}

#[test]
fn generic_evaluators_match_complete_scans_off_boolean() {
    for dimension in [2, 5, 8, 19, 33] {
        for rhs in [RhsSpec::ManufacturedOnesV1, seeded_rhs()] {
            let problem = generated(dimension, rhs);
            let plan = problem.public_evaluation_plan();
            let variables = plan.metadata().domain.variables;
            let row = test_point(variables, 2);
            let column = test_point(variables, 5);
            let matrix = plan
                .evaluate_matrix_mle(&TestInterpreter, &row, &column)
                .unwrap();
            let public_rhs = plan.evaluate_rhs_mle(&TestInterpreter, &row).unwrap();
            assert_eq!(
                matrix.value,
                scan_matrix(&TestInterpreter, &problem, &row, &column)
            );
            assert_eq!(public_rhs.value, scan_rhs(&TestInterpreter, &problem, &row));
            assert_eq!(
                matrix.fractional_bits,
                problem.certificate().coefficient_fractional_bits
            );
            assert_eq!(
                public_rhs.fractional_bits,
                problem.certificate().rhs_fractional_bits
            );
        }
    }
}

#[test]
fn every_family_matches_its_complete_scan() {
    let dia = MatrixSpec::SeededSymmetricDiaLaplacianV1 {
        dimension: 19,
        boundary: BoundaryRule::TruncateV1,
        fractional_bits: 8,
        diagonal_shift_mantissa: 64,
        edge_diagonals: vec![
            SymmetricDiaEdge {
                positive_offset: 1,
                period_bits: 2,
                minimum_weight_mantissa: 2,
                maximum_weight_mantissa: 7,
            },
            SymmetricDiaEdge {
                positive_offset: 7,
                period_bits: 5,
                minimum_weight_mantissa: 1,
                maximum_weight_mantissa: 5,
            },
        ],
    };
    let nonsymmetric = MatrixSpec::SeededNonsymmetricRowSparseV1 {
        dimension: 21,
        boundary: BoundaryRule::TruncateV1,
        row_pattern_bits: 3,
        maximum_half_bandwidth: 5,
        maximum_nonzeros_per_row: 7,
        fractional_bits: 12,
        minimum_mantissa: -4096,
        maximum_mantissa: 4096,
    };
    for matrix in [dia, nonsymmetric] {
        let mut template = template(19, seeded_rhs());
        template.matrix = matrix;
        let problem = template.finalize_literal().unwrap().compile().unwrap();
        let plan = problem.public_evaluation_plan();
        assert_eq!(plan.metadata().evaluator_version, 1);
        let variables = plan.metadata().domain.variables;
        let row = test_point(variables, 2);
        let column = test_point(variables, 5);
        assert_eq!(
            plan.evaluate_matrix_mle(&TestInterpreter, &row, &column)
                .unwrap()
                .value,
            scan_matrix(&TestInterpreter, &problem, &row, &column)
        );
        assert_eq!(
            plan.evaluate_rhs_mle(&TestInterpreter, &row).unwrap().value,
            scan_rhs(&TestInterpreter, &problem, &row)
        );
    }
}

#[test]
fn boolean_points_use_whir_msb_first_order_and_zero_padding() {
    let problem = generated(19, seeded_rhs());
    let plan = problem.public_evaluation_plan();
    let variables = plan.metadata().domain.variables;
    assert_eq!(variables, 5);
    assert_eq!(
        plan.metadata().domain.coordinate_order,
        BooleanCoordinateOrder::MostSignificantFirst
    );

    let row_zero = boolean_point(0, variables);
    let column_one = boolean_point(1, variables);
    let expected_edge = entries(&problem, 0)
        .into_iter()
        .find(|entry| entry.column == 1)
        .unwrap()
        .value
        .mantissa();
    assert_eq!(
        plan.evaluate_matrix_mle(&TestInterpreter, &row_zero, &column_one)
            .unwrap()
            .value,
        TestInterpreter.embed_i64(expected_edge)
    );

    // Reversing the coordinate spelling of index one selects index 16, which is
    // structurally zero in row zero. This freezes bit order.
    let reversed_column_one = column_one.iter().copied().rev().collect::<Vec<_>>();
    assert_eq!(
        plan.evaluate_matrix_mle(&TestInterpreter, &row_zero, &reversed_column_one)
            .unwrap()
            .value,
        TestInterpreter.zero()
    );

    let padded_row = boolean_point(problem.dimension(), variables);
    assert_eq!(
        plan.evaluate_matrix_mle(&TestInterpreter, &padded_row, &column_one)
            .unwrap()
            .value,
        TestInterpreter.zero()
    );
    assert_eq!(
        plan.evaluate_rhs_mle(&TestInterpreter, &padded_row)
            .unwrap()
            .value,
        TestInterpreter.zero()
    );
}

#[test]
fn capability_extends_to_the_exact_profiles_minimum_64_row_domain() {
    let problem = generated(19, seeded_rhs());
    let plan = problem.public_evaluation_plan();
    let row_zero = boolean_point(0, 6);
    let column_one = boolean_point(1, 6);
    let expected_edge = entries(&problem, 0)
        .into_iter()
        .find(|entry| entry.column == 1)
        .unwrap()
        .value
        .mantissa();
    assert_eq!(
        plan.evaluate_matrix_mle_zero_padded(&TestInterpreter, &row_zero, &column_one)
            .unwrap()
            .value,
        TestInterpreter.embed_i64(expected_edge)
    );
    assert_eq!(
        plan.evaluate_rhs_mle_zero_padded(&TestInterpreter, &row_zero)
            .unwrap()
            .value,
        TestInterpreter.embed_i64(problem.rhs(0).unwrap().mantissa())
    );

    let outside_natural_domain = boolean_point(32, 6);
    assert_eq!(
        plan.evaluate_matrix_mle_zero_padded(
            &TestInterpreter,
            &outside_natural_domain,
            &column_one,
        )
        .unwrap()
        .value,
        TestInterpreter.zero()
    );
    assert_eq!(
        plan.evaluate_rhs_mle_zero_padded(&TestInterpreter, &outside_natural_domain)
            .unwrap()
            .value,
        TestInterpreter.zero()
    );
    assert_eq!(
        plan.evaluate_rhs_mle_zero_padded(&TestInterpreter, &boolean_point(0, 4))
            .unwrap_err(),
        MleEvaluationError::PointDimension {
            point: "zero-padded RHS",
            expected: 5,
            actual: 4
        }
    );
}

#[test]
fn binary64_interpreter_overlaps_complete_scan_error_intervals() {
    for dimension in [5, 19, 32] {
        for rhs in [RhsSpec::ManufacturedOnesV1, seeded_rhs()] {
            let problem = generated(dimension, rhs);
            let plan = problem.public_evaluation_plan();
            let variables = plan.metadata().domain.variables;
            let row = (0..variables)
                .map(|coordinate| source((coordinate as f64 + 1.0) / 16.0))
                .collect::<Vec<_>>();
            let column = (0..variables)
                .map(|coordinate| source((2.0 * coordinate as f64 + 1.0) / 32.0))
                .collect::<Vec<_>>();
            let raw = plan
                .evaluate_matrix_mle(&TrackedF64Interpreter, &row, &column)
                .unwrap();
            let fractional_bits = raw.fractional_bits;
            let work = raw.work;
            let matrix = scaled(raw);
            let scanned_matrix = scaled(MleEvaluation {
                value: scan_matrix(&TrackedF64Interpreter, &problem, &row, &column),
                fractional_bits,
                work,
            });
            let matrix_gap = (matrix.value - scanned_matrix.value).abs();
            assert!(
                matrix_gap <= matrix.error_bound + scanned_matrix.error_bound,
                "matrix interval mismatch at n={dimension}: gap={matrix_gap:e}"
            );

            let raw = plan.evaluate_rhs_mle(&TrackedF64Interpreter, &row).unwrap();
            let fractional_bits = raw.fractional_bits;
            let work = raw.work;
            let public_rhs = scaled(raw);
            let scanned_rhs = scaled(MleEvaluation {
                value: scan_rhs(&TrackedF64Interpreter, &problem, &row),
                fractional_bits,
                work,
            });
            let rhs_gap = (public_rhs.value - scanned_rhs.value).abs();
            assert!(
                rhs_gap <= public_rhs.error_bound + scanned_rhs.error_bound,
                "RHS interval mismatch at n={dimension}: gap={rhs_gap:e}"
            );
        }
    }
}

#[test]
fn work_depends_on_period_and_log_dimension_not_nnz() {
    let problem = generated(1 << 20, seeded_rhs());
    let plan = problem.public_evaluation_plan();
    let metadata = plan.metadata();
    let row = vec![TestInterpreter.embed_i64(2); metadata.domain.variables];
    let column = vec![TestInterpreter.embed_i64(3); metadata.domain.variables];
    let matrix = plan
        .evaluate_matrix_mle(&TestInterpreter, &row, &column)
        .unwrap();
    let rhs = plan.evaluate_rhs_mle(&TestInterpreter, &row).unwrap();
    assert_eq!(matrix.work.periodic_terms, 8);
    assert_eq!(rhs.work.periodic_terms, 4);
    assert!(matrix.work.arithmetic_operations() < 10_000);
    assert!(rhs.work.arithmetic_operations() < 2_000);
    assert_eq!(metadata.matrix_period_terms, 8);
    assert_eq!(metadata.rhs_period_terms, 4);
}

#[test]
fn exact_bounds_align_rhs_and_report_norm_growth() {
    let problem = generated(19, seeded_rhs());
    let bounds = problem.public_evaluation_plan().metadata().exact_bounds;
    let diagnostics = bounds.no_wrap_diagnostics(128, 64, 69).unwrap();
    assert_eq!(diagnostics.relation_fractional_bits, 72);
    assert_eq!(diagnostics.matrix_term_alignment_shift, 0);
    assert_eq!(diagnostics.rhs_alignment_shift, 66);
    assert_eq!(diagnostics.residual_norm_strict_bound_bits, 143);
    assert!(
        diagnostics.minimum_safe_modulus_bits
            > diagnostics.row_identity_difference_strict_bound_bits
    );
}

#[test]
fn binary64_points_are_strictly_validated() {
    let problem = generated(5, RhsSpec::ManufacturedOnesV1);
    let plan = problem.public_evaluation_plan();
    let variables = plan.metadata().domain.variables;
    let valid = vec![Binary64::from_bits(0.5_f64.to_bits()); variables];
    assert!(validate_f64_point("row", &valid, variables).is_ok());

    for invalid in [f64::NAN, f64::INFINITY, -0.0, f64::from_bits(1), 1.5] {
        let mut point = valid.clone();
        point[0] = Binary64::from_bits(invalid.to_bits());
        assert!(matches!(
            validate_f64_point("row", &point, variables),
            Err(MleEvaluationError::InvalidBinary64Coordinate { .. })
        ));
    }
    assert!(matches!(
        plan.evaluate_rhs_mle(&TestInterpreter, &[]),
        Err(MleEvaluationError::PointDimension { .. })
    ));
    for valid_coordinate in [0.0_f64, 1.0, f64::MIN_POSITIVE] {
        let point = vec![Binary64::from_bits(valid_coordinate.to_bits()); variables];
        assert!(validate_f64_point("row", &point, variables).is_ok());
    }
}
