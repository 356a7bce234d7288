use sparse_solver_validator::{
    sample_nonzero_mantissa, BoundaryRule, DiagonalConstruction, FinalizedRandomness,
    GeneratedProblem, InstanceSeed, MatrixEntry, MatrixRow, MatrixSpec, OffDiagonalValues,
    ProblemError, ProblemSchema, ProblemTemplate, RequestedOutput, RhsSpec, SeedDerivation,
    SymmetricDiaEdge, TemplateRandomness, TemplateSchema, UniformStream,
};

fn matrix(dimension: u64) -> MatrixSpec {
    MatrixSpec::SeededSymmetricTridiagonalV1 {
        dimension,
        boundary: BoundaryRule::TruncateV1,
        off_diagonal: OffDiagonalValues::SeededPeriodicNegativeDyadicV1 {
            period_bits: 3,
            fractional_bits: 8,
            minimum_magnitude_mantissa: 1,
            maximum_magnitude_mantissa: 12,
        },
        diagonal: DiagonalConstruction::AbsoluteRowSumPlusMarginV1 {
            margin_mantissa: 16,
        },
    }
}

fn template(seed_byte: u8, rhs: RhsSpec) -> ProblemTemplate {
    ProblemTemplate {
        schema: TemplateSchema::V1,
        randomness: TemplateRandomness::LiteralV1 {
            seed: InstanceSeed::from_bytes([seed_byte; 32]),
        },
        matrix: matrix(19),
        rhs,
        requested_outputs: vec![RequestedOutput::SquaredL2ResidualV1],
    }
}

fn dia_matrix(dimension: u64) -> MatrixSpec {
    MatrixSpec::SeededSymmetricDiaLaplacianV1 {
        dimension,
        boundary: BoundaryRule::TruncateV1,
        fractional_bits: 8,
        diagonal_shift_mantissa: 16,
        edge_diagonals: vec![
            SymmetricDiaEdge {
                positive_offset: 1,
                period_bits: 2,
                minimum_weight_mantissa: 1,
                maximum_weight_mantissa: 7,
            },
            SymmetricDiaEdge {
                positive_offset: 4,
                period_bits: 1,
                minimum_weight_mantissa: 2,
                maximum_weight_mantissa: 9,
            },
        ],
    }
}

fn nonsymmetric_matrix(
    dimension: u64,
    maximum_half_bandwidth: u64,
    maximum_nonzeros_per_row: u8,
) -> MatrixSpec {
    MatrixSpec::SeededNonsymmetricRowSparseV1 {
        dimension,
        boundary: BoundaryRule::TruncateV1,
        row_pattern_bits: 3,
        maximum_half_bandwidth,
        maximum_nonzeros_per_row,
        fractional_bits: 8,
        minimum_mantissa: -256,
        maximum_mantissa: 256,
    }
}

fn seeded_rhs() -> RhsSpec {
    RhsSpec::SeededPeriodicDyadicV1 {
        period_bits: 3,
        fractional_bits: 8,
        minimum_mantissa: -64,
        maximum_mantissa: 63,
    }
}

fn generated(seed_byte: u8, rhs: RhsSpec) -> GeneratedProblem {
    template(seed_byte, rhs)
        .finalize_literal()
        .unwrap()
        .compile()
        .unwrap()
}

fn dia_generated(seed_byte: u8, rhs: RhsSpec) -> GeneratedProblem {
    let mut template = template(seed_byte, rhs);
    template.matrix = dia_matrix(19);
    template.finalize_literal().unwrap().compile().unwrap()
}

fn nonsymmetric_generated(seed_byte: u8) -> GeneratedProblem {
    let mut template = template(seed_byte, seeded_rhs());
    template.matrix = nonsymmetric_matrix(37, 5, 7);
    template.finalize_literal().unwrap().compile().unwrap()
}

fn entries(mut row: MatrixRow<'_>) -> Vec<MatrixEntry> {
    let mut listed = Vec::new();
    while let Some(entry) = row.next() {
        listed.push(entry);
    }
    listed
}

fn entries_from_the_back(mut row: MatrixRow<'_>) -> Vec<MatrixEntry> {
    let mut listed = Vec::new();
    while let Some(entry) = row.next_back() {
        listed.push(entry);
    }
    listed
}

fn row_lengths(problem: &GeneratedProblem) -> Vec<usize> {
    let mut rows = problem.rows();
    let mut lengths = Vec::new();
    while let Some(row) = rows.next() {
        lengths.push(row.len());
    }
    lengths
}

#[test]
fn generation_is_deterministic_and_seed_bound() {
    let lhs = generated(1, RhsSpec::ManufacturedOnesV1);
    let rhs = generated(1, RhsSpec::ManufacturedOnesV1);
    let changed = generated(2, RhsSpec::ManufacturedOnesV1);
    assert_eq!(lhs, rhs);
    assert_ne!(
        lhs.off_diagonal_periodic_mantissas(),
        changed.off_diagonal_periodic_mantissas()
    );
    assert_ne!(lhs.problem_digest(), changed.problem_digest());
}

#[test]
fn rows_are_sorted_symmetric_negative_and_strictly_dominant() {
    let problem = generated(9, RhsSpec::ManufacturedOnesV1);
    for row_index in 0..problem.dimension() {
        let row = entries(problem.row(row_index).unwrap());
        assert!(row.windows(2).all(|pair| pair[0].column < pair[1].column));
        let diagonal = row
            .iter()
            .find(|entry| entry.column == row_index)
            .unwrap()
            .value
            .mantissa();
        let off_sum: i64 = row
            .iter()
            .filter(|entry| entry.column != row_index)
            .map(|entry| {
                assert!(entry.value.mantissa() < 0);
                entry.value.mantissa().abs()
            })
            .sum();
        assert_eq!(diagonal - off_sum, 16);
        for entry in &row {
            let transpose = entries(problem.row(entry.column).unwrap())
                .into_iter()
                .find(|candidate| candidate.column == row_index)
                .unwrap();
            assert_eq!(entry.value, transpose.value);
        }
    }
}

#[test]
fn dia_rows_derive_symmetry_dominance_and_exact_structure_from_edges() {
    let problem = dia_generated(17, RhsSpec::ManufacturedOnesV1);
    let dimension = problem.dimension();
    let expected_nonzeros = dimension + 2 * ((dimension - 1) + (dimension - 4));
    assert_eq!(problem.structural_nonzeros(), expected_nonzeros);
    assert_eq!(
        row_lengths(&problem).into_iter().sum::<usize>(),
        expected_nonzeros
    );
    for row_index in 0..dimension {
        let row = entries(problem.row(row_index).unwrap());
        assert!(row.windows(2).all(|pair| pair[0].column < pair[1].column));
        let diagonal = row
            .iter()
            .find(|entry| entry.column == row_index)
            .unwrap()
            .value
            .mantissa();
        let off_diagonal_sum = row
            .iter()
            .filter(|entry| entry.column != row_index)
            .map(|entry| {
                assert!(entry.value.mantissa() < 0);
                let transpose = entries(problem.row(entry.column).unwrap())
                    .into_iter()
                    .find(|candidate| candidate.column == row_index)
                    .unwrap();
                assert_eq!(entry.value, transpose.value);
                entry.value.mantissa().unsigned_abs()
            })
            .sum::<u64>();
        assert_eq!(u64::try_from(diagonal).unwrap() - off_diagonal_sum, 16);

        let reverse = entries_from_the_back(problem.row(row_index).unwrap());
        assert_eq!(reverse, row.iter().rev().copied().collect::<Vec<_>>());
    }
    let certificate = problem.certificate();
    assert!(certificate.symmetric);
    assert!(certificate.strictly_row_diagonally_dominant);
    assert!(certificate.nonsingular_m_matrix);
    assert_eq!(certificate.maximum_nonzeros_per_row, 5);
}

#[test]
fn nonsymmetric_rows_generate_sorted_bounded_patterns_and_mixed_sign_values() {
    let problem = nonsymmetric_generated(29);

    let mut observed_asymmetry = false;
    let mut observed_positive = false;
    let mut observed_negative = false;
    let mut enumerated_nonzeros = 0_usize;
    for row_index in 0..problem.dimension() {
        let row = entries(problem.row(row_index).unwrap());
        enumerated_nonzeros += row.len();
        assert!(row.len() <= 7);
        assert!(row.windows(2).all(|pair| pair[0].column < pair[1].column));
        assert_eq!(
            row.iter().filter(|entry| entry.column == row_index).count(),
            1
        );
        for entry in &row {
            assert!(entry.column.abs_diff(row_index) <= 5);
            assert_ne!(entry.value.mantissa(), 0);
            assert!((-256..=256).contains(&entry.value.mantissa()));
            assert_eq!(entry.value.fractional_bits(), 8);
            observed_positive |= entry.value.mantissa() > 0;
            observed_negative |= entry.value.mantissa() < 0;
            if entry.column != row_index {
                let transpose = entries(problem.row(entry.column).unwrap())
                    .into_iter()
                    .find(|candidate| candidate.column == row_index);
                observed_asymmetry |=
                    !matches!(transpose, Some(candidate) if candidate.value == entry.value);
            }
        }
    }
    assert_eq!(enumerated_nonzeros, problem.structural_nonzeros());
    assert!(observed_asymmetry);
    assert!(observed_positive && observed_negative);

    let first = entries(problem.row(5).unwrap())
        .into_iter()
        .map(|entry| {
            (
                isize::try_from(entry.column).expect("test column fits isize") - 5,
                entry.value,
            )
        })
        .collect::<Vec<_>>();
    let repeated = entries(problem.row(13).unwrap())
        .into_iter()
        .map(|entry| {
            (
                isize::try_from(entry.column).expect("test column fits isize") - 13,
                entry.value,
            )
        })
        .collect::<Vec<_>>();
    assert_eq!(first, repeated);
    assert!(first.windows(2).all(|pair| pair[0].0 < pair[1].0));
    assert!(first.iter().all(|(offset, _)| offset.unsigned_abs() <= 5));

    let certificate = problem.certificate();
    assert_eq!(certificate.maximum_nonzeros_per_row, 7);
    assert_eq!(certificate.maximum_half_bandwidth, 5);
    assert!(!certificate.symmetric);
    assert!(!certificate.strictly_row_diagonally_dominant);
    assert!(!certificate.nonsingular_m_matrix);
}

#[test]
fn nonsymmetric_diagonal_only_corner_preserves_required_nonzero() {
    let mut template = template(31, seeded_rhs());
    template.matrix = MatrixSpec::SeededNonsymmetricRowSparseV1 {
        dimension: 4,
        boundary: BoundaryRule::TruncateV1,
        row_pattern_bits: 1,
        maximum_half_bandwidth: 0,
        maximum_nonzeros_per_row: 1,
        fractional_bits: 0,
        minimum_mantissa: -1,
        maximum_mantissa: 1,
    };
    let problem = template.finalize_literal().unwrap().compile().unwrap();
    assert_eq!(problem.structural_nonzeros(), 4);
    for row_index in 0..4 {
        let mut row = problem.row(row_index).unwrap();
        assert_eq!(row.len(), 1);
        let diagonal = row.next().unwrap();
        assert_eq!(diagonal.column, row_index);
        assert!(matches!(diagonal.value.mantissa(), -1 | 1));
        assert!(row.next().is_none());
    }
}

#[test]
fn truncating_endpoints_and_structural_nnz_are_exact() {
    let problem = generated(4, RhsSpec::ManufacturedOnesV1);
    assert_eq!(problem.row(0).unwrap().len(), 2);
    assert_eq!(problem.row(problem.dimension() - 1).unwrap().len(), 2);
    let lengths = row_lengths(&problem);
    assert!(lengths
        .iter()
        .skip(1)
        .take(problem.dimension() - 2)
        .all(|length| *length == 3));
    let enumerated = lengths.into_iter().sum::<usize>();
    assert_eq!(problem.structural_nonzeros(), 3 * problem.dimension() - 2);
    assert_eq!(enumerated, problem.structural_nonzeros());
    assert_eq!(problem.structural_nnz(), enumerated);
    assert!(problem.row(problem.dimension()).is_none());
}

#[test]
fn manufactured_rhs_is_exactly_matrix_times_ones() {
    let problem = generated(5, RhsSpec::ManufacturedOnesV1);
    for row_index in 0..problem.dimension() {
        let row_sum: i64 = entries(problem.row(row_index).unwrap())
            .into_iter()
            .map(|entry| entry.value.mantissa())
            .sum();
        let rhs = problem.rhs(row_index).unwrap();
        assert_eq!(rhs.fractional_bits(), 8);
        assert_eq!(rhs.mantissa(), row_sum);
        assert_eq!(problem.rhs_f64(row_index), Some(rhs.to_f64()));
    }
    assert!(problem.rhs(problem.dimension()).is_none());
}

#[test]
fn seeded_rhs_is_bounded_periodic_and_domain_separated() {
    let rhs = RhsSpec::SeededPeriodicDyadicV1 {
        period_bits: 2,
        fractional_bits: 6,
        minimum_mantissa: -7,
        maximum_mantissa: 11,
    };
    let problem = generated(3, rhs);
    let table = problem.rhs_periodic_mantissas().unwrap();
    assert_eq!(table.len(), 4);
    assert!(table.iter().all(|value| (-7..=11).contains(value)));
    for row in 0..problem.dimension() - table.len() {
        assert_eq!(problem.rhs(row), problem.rhs(row + table.len()));
    }
    assert_ne!(
        table,
        &problem.off_diagonal_periodic_mantissas()[..table.len()]
    );
}

#[test]
fn seeded_rhs_stream_is_independent_of_the_compiled_matrix_family() {
    let rhs = RhsSpec::SeededPeriodicDyadicV1 {
        period_bits: 3,
        fractional_bits: 6,
        minimum_mantissa: -17,
        maximum_mantissa: 19,
    };
    let tridiagonal = generated(23, rhs);
    let dia = dia_generated(23, rhs);
    let mut nonsymmetric_template = template(23, rhs);
    nonsymmetric_template.matrix = nonsymmetric_matrix(19, 5, 7);
    let nonsymmetric = nonsymmetric_template
        .finalize_literal()
        .unwrap()
        .compile()
        .unwrap();
    assert_eq!(
        tridiagonal.rhs_periodic_mantissas(),
        dia.rhs_periodic_mantissas()
    );
    assert_eq!(
        tridiagonal.rhs_periodic_mantissas(),
        nonsymmetric.rhs_periodic_mantissas()
    );
    assert_ne!(
        tridiagonal.off_diagonal_periodic_mantissas(),
        dia.off_diagonal_periodic_mantissas()
    );
}

#[test]
fn derived_context_recomputes_and_validates() {
    let mut template = template(0, RhsSpec::ManufacturedOnesV1);
    template.randomness = TemplateRandomness::ChallengeDerivedV1 {
        derivation: SeedDerivation::Blake3XofV1,
    };
    let problem = template
        .finalize_with_challenge_context(b"signed challenge")
        .unwrap();
    problem
        .verify_challenge_context(b"signed challenge")
        .unwrap();
    assert!(problem
        .verify_challenge_context(b"other challenge")
        .is_err());

    let mut tampered = problem.clone();
    tampered.schema = ProblemSchema::V1;
    if let FinalizedRandomness::ChallengeDerivedV1 { seed, .. } = &mut tampered.randomness {
        *seed = InstanceSeed::from_bytes([99; 32]);
    }
    assert!(matches!(
        tampered.validate(),
        Err(ProblemError::DerivedSeedMismatch)
    ));
}

#[test]
fn sampler_stays_in_range_for_non_power_of_two_bounds() {
    let mut stream = UniformStream::new(InstanceSeed::from_bytes([42; 32]));
    let samples = (0..10_000)
        .map(|_| stream.sample_below(7).unwrap())
        .collect::<Vec<_>>();
    assert!(samples.iter().all(|sample| *sample < 7));
    assert!((0..7).all(|value| samples.contains(&value)));
}

#[test]
fn nonsymmetric_value_sampler_is_bounded_and_never_stores_zero() {
    let mut stream = UniformStream::new(InstanceSeed::from_bytes([43; 32]));
    for (minimum, maximum) in [(-7, 11), (-7, 0), (0, 11), (-1, -1), (1, 1)] {
        for _ in 0..1_000 {
            let value = sample_nonzero_mantissa(&mut stream, minimum, maximum).unwrap();
            assert!((minimum..=maximum).contains(&value));
            assert_ne!(value, 0);
        }
    }
}

#[test]
fn value_sampler_covers_the_whole_signed_range() {
    let mut stream = UniformStream::new(InstanceSeed::from_bytes([44; 32]));
    let samples = (0..1_000)
        .map(|_| sample_nonzero_mantissa(&mut stream, i64::MIN, i64::MAX).unwrap())
        .collect::<Vec<_>>();
    assert!(samples.iter().all(|value| *value != 0));
    assert!(samples.iter().any(|value| *value > i64::MAX / 2));
    assert!(samples.iter().any(|value| *value < i64::MIN / 2));

    let seed = InstanceSeed::from_bytes([45; 32]);
    let mut words = UniformStream::new(seed);
    let mut values = UniformStream::new(seed);
    for _ in 0..10 {
        let word = words.sample_below(u64::MAX).unwrap();
        let shifted = i128::from(word) + i128::from(i64::MIN);
        let expected = if shifted < 0 { shifted } else { shifted + 1 };
        let value = sample_nonzero_mantissa(&mut values, i64::MIN, i64::MAX).unwrap();
        assert_eq!(i128::from(value), expected);
    }
}

#[test]
fn certificates_bound_every_row_and_every_diagonal() {
    for problem in [
        generated(5, seeded_rhs()),
        dia_generated(6, seeded_rhs()),
        nonsymmetric_generated(7),
    ] {
        let certificate = problem.certificate();
        for row_index in 0..problem.dimension() {
            let row = entries(problem.row(row_index).unwrap());
            assert!(row.len() as u64 <= certificate.maximum_nonzeros_per_row as u64);
            let diagonal = row.iter().find(|entry| entry.column == row_index).unwrap();
            assert!(
                diagonal.value.mantissa().unsigned_abs()
                    <= certificate.maximum_diagonal_mantissa_bound
            );
        }
    }
}

#[test]
fn streams_are_little_endian_words_of_the_derived_output() {
    let seed = InstanceSeed::from_bytes([42; 32]);
    let mut hasher = blake3::Hasher::new_derive_key("sparse-solve/unbiased-u64-stream/v1");
    hasher.update(seed.as_bytes());
    let mut reader = hasher.finalize_xof();
    let mut stream = UniformStream::new(seed);
    for _ in 0..3 {
        let mut word = [0_u8; 8];
        reader.fill(&mut word);
        // Below 2^63 every word is accepted, and its remainder is returned.
        let expected = u64::from_le_bytes(word) % (1 << 63);
        assert_eq!(stream.sample_below(1 << 63), Some(expected));
    }
}

#[test]
fn row_products_vanish_outside_the_listed_entries() {
    let problem = nonsymmetric_generated(7);
    for row_index in 0..problem.dimension() {
        let listed = entries(problem.row(row_index).unwrap());
        let reversed = entries_from_the_back(problem.row(row_index).unwrap());
        assert_eq!(listed.iter().rev().copied().collect::<Vec<_>>(), reversed);
        let magnitude: u64 = listed
            .iter()
            .map(|entry| entry.value.mantissa().unsigned_abs())
            .sum();
        assert!(magnitude <= problem.certificate().maximum_absolute_row_sum_mantissa_bound);
    }
}
