use sparse_solver_validator::solution::{MAX_DECIMAL_BYTES, SCHEMA};
use sparse_solver_validator::{
    json_closing, json_entry, json_opening, to_pretty_json, Binary64, Solution, SolutionDocument,
    SolutionError, SolutionField,
};

fn solution(values: &[f64], expected_len: usize) -> Result<Solution, SolutionError> {
    let values = values
        .iter()
        .map(|value| Binary64::from_bits(value.to_bits()))
        .collect();
    Solution::new(values, expected_len)
}

/// Feeds the fields of a JSON document to the strict decoder.
fn from_json(encoded: &[u8], expected_len: usize) -> Result<Solution, String> {
    let value: serde_json::Value =
        serde_json::from_slice(encoded).map_err(|error| error.to_string())?;
    let object = value.as_object().ok_or("not an object")?;
    let mut document = SolutionDocument::new(expected_len);
    for (name, field) in object {
        match document.field(name).map_err(|error| format!("{error:?}"))? {
            SolutionField::Schema => {
                let schema = field.as_str().ok_or("schema is not a string")?;
                document = document
                    .schema(schema)
                    .map_err(|error| format!("{error:?}"))?;
            }
            SolutionField::Values => {
                document = document.begin_values();
                for entry in field.as_array().ok_or("values is not an array")? {
                    let decimal = entry.as_str().ok_or("value is not a string")?;
                    let parsed = decimal
                        .parse::<f64>()
                        .ok()
                        .map(|value| Binary64::from_bits(value.to_bits()));
                    document = document
                        .value(decimal.len(), parsed)
                        .map_err(|error| format!("{error:?}"))?;
                }
                document = document
                    .end_values()
                    .map_err(|error| format!("{error:?}"))?;
            }
        }
    }
    document.finish().map_err(|error| format!("{error:?}"))
}

fn decimals(solution: &Solution) -> Vec<Vec<u8>> {
    solution
        .as_slice()
        .iter()
        .map(|value| format!("{}", f64::from_bits(value.to_bits())).into_bytes())
        .collect()
}

#[test]
fn json_round_trip() {
    let solution = solution(&[1.0, -2.5, 0.0], 3).unwrap();
    let encoded = to_pretty_json(&decimals(&solution));
    assert_eq!(from_json(&encoded, 3).unwrap(), solution);
    assert_eq!(
        String::from_utf8(encoded).unwrap(),
        "{\n  \"schema\": \"sparse-solve/solution/binary64-v1\",\n  \"values\": [\n    \"1\",\n    \"-2.5\",\n    \"0\"\n  ]\n}\n"
    );
}

#[test]
fn rejects_bad_length_and_noncanonical_values() {
    assert!(matches!(
        solution(&[1.0], 2),
        Err(SolutionError::WrongLength { .. })
    ));
    assert!(matches!(
        solution(&[-0.0], 1),
        Err(SolutionError::NegativeZero { index: 0 })
    ));
    assert!(matches!(
        solution(&[f64::MIN_POSITIVE / 2.0], 1),
        Err(SolutionError::Subnormal { index: 0 })
    ));
    assert!(matches!(
        solution(&[1.0, f64::NAN], 2),
        Err(SolutionError::NonFinite { index: 1 })
    ));
}

#[test]
fn rejects_unknown_fields_and_numeric_json_values() {
    let unknown = br#"{"schema":"sparse-solve/solution/binary64-v1","values":["1"],"extra":0}"#;
    assert!(from_json(unknown, 1).is_err());
    let numeric = br#"{"schema":"sparse-solve/solution/binary64-v1","values":[1]}"#;
    assert!(from_json(numeric, 1).is_err());
}

#[test]
fn parser_enforces_count_and_decimal_bounds_while_decoding() {
    let short = br#"{"schema":"sparse-solve/solution/binary64-v1","values":["1"]}"#;
    assert!(from_json(short, 2).is_err());
    let long = br#"{"schema":"sparse-solve/solution/binary64-v1","values":["1","2"]}"#;
    assert!(from_json(long, 1).is_err());
    let oversized_decimal = format!(
        "{{\"schema\":\"{SCHEMA}\",\"values\":[\"{}\"]}}",
        "1".repeat(MAX_DECIMAL_BYTES + 1)
    );
    assert!(from_json(oversized_decimal.as_bytes(), 1).is_err());
    assert!(Solution::maximum_json_bytes(2) < Solution::maximum_json_bytes(3));
}

#[test]
fn repeated_writer_streams_without_a_solution_allocation() {
    let mut encoded = json_opening();
    for index in 0..3 {
        encoded.extend_from_slice(&json_entry(index, b"1"));
    }
    encoded.extend_from_slice(&json_closing(3));
    assert_eq!(
        from_json(&encoded, 3).unwrap(),
        solution(&[1.0, 1.0, 1.0], 3).unwrap()
    );
    assert_eq!(
        encoded,
        to_pretty_json(&vec![b"1".to_vec(), b"1".to_vec(), b"1".to_vec()])
    );
}

#[test]
fn documents_refuse_duplicates_and_gaps() {
    let fresh = SolutionDocument::new(1);
    assert_eq!(fresh.field("other"), Err(SolutionError::UnknownField));
    assert_eq!(
        SolutionDocument::new(1).finish(),
        Err(SolutionError::MissingField {
            field: SolutionField::Schema
        })
    );
    let seen = fresh.schema(SCHEMA).unwrap();
    assert_eq!(
        seen.field("schema"),
        Err(SolutionError::DuplicateField {
            field: SolutionField::Schema
        })
    );
    assert_eq!(
        seen.finish(),
        Err(SolutionError::MissingField {
            field: SolutionField::Values
        })
    );
    assert_eq!(
        SolutionDocument::new(1).schema("other").unwrap_err(),
        SolutionError::UnsupportedSchema
    );
    let listed = SolutionDocument::new(1).begin_values();
    assert_eq!(
        listed.field("values"),
        Err(SolutionError::DuplicateField {
            field: SolutionField::Values
        })
    );
    assert_eq!(
        Solution::from_bits(vec![1.0_f64.to_bits()], 1)
            .unwrap()
            .into_values(),
        vec![Binary64::from_bits(1.0_f64.to_bits())]
    );
}
