//! Strict, proof-system-independent solution vectors.
//!
//! JSON is an interchange format for solver output. Proof artifacts use the
//! validated binary64 bits, so that parsing is never part of verification. The
//! document rules live here; reading JSON tokens and spelling decimals is the
//! caller's part.

use vstd::prelude::*;

use crate::binary64;
use crate::binary64::Binary64;
use crate::text;

verus! {

/// Schema of a solution document.
pub const SCHEMA: &'static str = "sparse-solve/solution/binary64-v1";

/// Longest accepted decimal spelling of one value.
pub const MAX_DECIMAL_BYTES: usize = 128;

const JSON_FIXED_ALLOWANCE: usize = 1024;

const JSON_BYTES_PER_VALUE: usize = 136;

/// Why a value, a vector or a document is not a solution.
#[derive(Clone, Copy, Debug, PartialEq, Eq, Structural)]
pub enum SolutionError {
    /// A document has another schema.
    UnsupportedSchema,
    /// A vector has another length than the problem's dimension.
    WrongLength { expected: usize, actual: usize },
    /// A decimal is too long or does not spell a binary64.
    InvalidDecimal { index: usize },
    /// A value is a NaN or infinite.
    NonFinite { index: usize },
    /// A value is a negative zero.
    NegativeZero { index: usize },
    /// A value is subnormal.
    Subnormal { index: usize },
    /// A document field is neither the schema nor the values.
    UnknownField,
    /// A document field comes twice.
    DuplicateField { field: SolutionField },
    /// A document field is missing.
    MissingField { field: SolutionField },
    /// More values follow than the problem has entries.
    TooManyValues { expected: usize },
    /// A list of values ends early.
    TooFewValues { expected: usize, actual: usize },
}

/// The fields of a solution document.
#[derive(Clone, Copy, Debug, PartialEq, Eq, Structural)]
pub enum SolutionField {
    Schema,
    Values,
}

/// What is wrong with a value at an index, if anything.
pub open spec fn value_error(index: int, bits: u64) -> Option<SolutionError> {
    if !binary64::finite(bits) {
        Some(SolutionError::NonFinite { index: index as usize })
    } else if bits == binary64::SIGN_BIT {
        Some(SolutionError::NegativeZero { index: index as usize })
    } else if binary64::subnormal(bits) {
        Some(SolutionError::Subnormal { index: index as usize })
    } else {
        None
    }
}

/// Every value is finite, normal or zero, and no zero has a sign.
pub open spec fn valid_values(values: Seq<Binary64>) -> bool {
    forall|i: int| 0 <= i < values.len() ==> value_error(i, #[trigger] values[i]@) is None
}

fn validate_value(index: usize, value: Binary64) -> (result: Result<(), SolutionError>)
    ensures
        (match value_error(index as int, value@) {
            Some(error) => result == Err::<(), SolutionError>(error),
            None => result is Ok,
        }),
{
    if !value.is_finite() {
        return Err(SolutionError::NonFinite { index });
    }
    if value.to_bits() == binary64::SIGN_BIT {
        return Err(SolutionError::NegativeZero { index });
    }
    if value.is_subnormal() {
        return Err(SolutionError::Subnormal { index });
    }
    Ok(())
}

/// A validated, contiguous binary64 solution vector.
#[derive(Debug, PartialEq, Eq)]
pub struct Solution {
    values: Vec<Binary64>,
}

impl View for Solution {
    type V = Seq<Binary64>;

    closed spec fn view(&self) -> Seq<Binary64> {
        self.values@
    }
}

impl Clone for Solution {
    fn clone(&self) -> (copy: Self)
        ensures
            copy@ == self@,
    {
        proof {
            use_type_invariant(self);
        }
        Solution { values: vstd::slice::slice_to_vec(self.values.as_slice()) }
    }
}

/// What building a solution gives: the vector itself, or the refusal of its
/// length or of its first bad value.
pub open spec fn solution_outcome(
    values: Seq<Binary64>,
    expected_len: usize,
    result: Result<Solution, SolutionError>,
) -> bool {
    if values.len() != expected_len {
        result == Err::<Solution, SolutionError>(
            SolutionError::WrongLength { expected: expected_len, actual: values.len() as usize },
        )
    } else {
        match result {
            Ok(solution) => solution@ == values && valid_values(values),
            Err(error) => exists|i: int|
                0 <= i < values.len() && value_error(i, #[trigger] values[i]@) == Some(error)
                    && valid_values(values.take(i)),
        }
    }
}

impl Solution {
    #[verifier::type_invariant]
    spec fn inv(self) -> bool {
        valid_values(self.values@)
    }

    /// Validates values under the strict binary64 source policy.
    pub fn new(values: Vec<Binary64>, expected_len: usize) -> (result: Result<
        Solution,
        SolutionError,
    >)
        ensures
            solution_outcome(values@, expected_len, result),
    {
        if values.len() != expected_len {
            return Err(
                SolutionError::WrongLength { expected: expected_len, actual: values.len() },
            );
        }
        let mut index: usize = 0;
        while index < values.len()
            invariant
                index <= values@.len(),
                values@.len() == expected_len,
                valid_values(values@.take(index as int)),
            decreases values@.len() - index,
        {
            match validate_value(index, values[index]) {
                Ok(_) => {},
                Err(error) => {
                    assert(value_error(index as int, values@[index as int]@) == Some(error));
                    return Err(error);
                },
            }
            proof {
                let before = values@.take(index as int);
                let after = values@.take(index + 1);
                assert forall|i: int| 0 <= i < after.len() implies value_error(
                    i,
                    #[trigger] after[i]@,
                ) is None by {
                    if i < index {
                        assert(after[i] == before[i]);
                    }
                }
            }
            index = index + 1;
        }
        assert(values@.take(index as int) =~= values@);
        Ok(Solution { values })
    }

    /// Validates values given by their bits.
    pub fn from_bits(bits: Vec<u64>, expected_len: usize) -> (result: Result<
        Solution,
        SolutionError,
    >)
        ensures
            solution_outcome(
                bits@.map_values(|bits: u64| Binary64::of_bits(bits)),
                expected_len,
                result,
            ),
    {
        let mut values: Vec<Binary64> = Vec::new();
        let mut index: usize = 0;
        while index < bits.len()
            invariant
                index <= bits@.len(),
                values@.len() == index,
                forall|i: int|
                    0 <= i < index ==> #[trigger] values@[i] == Binary64::of_bits(bits@[i]),
            decreases bits@.len() - index,
        {
            values.push(Binary64::from_bits(bits[index]));
            index = index + 1;
        }
        assert(values@ =~= bits@.map_values(|bits: u64| Binary64::of_bits(bits)));
        Solution::new(values, expected_len)
    }

    /// Conservative input-file cap for a solution of the expected length.
    pub fn maximum_json_bytes(expected_len: usize) -> (bytes: usize)
        ensures
            1024 + 136 * expected_len <= usize::MAX ==> bytes == 1024 + 136 * expected_len,
            1024 + 136 * expected_len > usize::MAX ==> bytes == usize::MAX,
    {
        match expected_len.checked_mul(JSON_BYTES_PER_VALUE) {
            Some(values) => match values.checked_add(JSON_FIXED_ALLOWANCE) {
                Some(total) => total,
                None => usize::MAX,
            },
            None => usize::MAX,
        }
    }

    pub fn as_slice(&self) -> (values: &[Binary64])
        ensures
            values@ == self@,
            valid_values(values@),
    {
        proof {
            use_type_invariant(self);
        }
        self.values.as_slice()
    }

    /// The values themselves.
    pub fn into_values(self) -> (values: Vec<Binary64>)
        ensures
            values@ == self@,
    {
        self.values
    }
}

/// The state of a solution document while its fields are read.
pub struct DocumentModel {
    pub expected_len: usize,
    pub schema_seen: bool,
    /// The values read so far, once the field has begun.
    pub values: Option<Seq<Binary64>>,
    /// Whether the list of values has ended.
    pub complete: bool,
}

/// The rules of a solution document, one token at a time.
#[derive(Debug)]
pub struct SolutionDocument {
    expected_len: usize,
    schema_seen: bool,
    values: Option<Vec<Binary64>>,
    complete: bool,
}

impl View for SolutionDocument {
    type V = DocumentModel;

    closed spec fn view(&self) -> DocumentModel {
        DocumentModel {
            expected_len: self.expected_len,
            schema_seen: self.schema_seen,
            values: match self.values {
                Some(values) => Some(values@),
                None => None,
            },
            complete: self.complete,
        }
    }
}

/// The field that a name selects.
pub open spec fn field_of(name: Seq<char>) -> Option<SolutionField> {
    if name == "schema"@ {
        Some(SolutionField::Schema)
    } else if name == "values"@ {
        Some(SolutionField::Values)
    } else {
        None
    }
}

/// What one more value does to a document: the new list, or the refusal.
pub open spec fn value_step(
    document: DocumentModel,
    decimal_len: nat,
    parsed: Option<Binary64>,
) -> Result<Seq<Binary64>, SolutionError> {
    let values = document.values->0;
    let index = values.len();
    if index >= document.expected_len {
        Err(SolutionError::TooManyValues { expected: document.expected_len })
    } else if decimal_len > MAX_DECIMAL_BYTES || parsed is None {
        Err(SolutionError::InvalidDecimal { index: index as usize })
    } else {
        match value_error(index as int, parsed->0@) {
            Some(error) => Err(error),
            None => Ok(values.push(parsed->0)),
        }
    }
}

impl SolutionDocument {
    #[verifier::type_invariant]
    spec fn inv(self) -> bool {
        &&& self.values is None ==> !self.complete
        &&& self.values matches Some(values) ==> valid_values(values@) && values@.len()
            <= self.expected_len && (self.complete ==> values@.len() == self.expected_len)
    }

    /// An empty document for a problem of a dimension.
    pub fn new(expected_len: usize) -> (document: SolutionDocument)
        ensures
            document@ == (DocumentModel {
                expected_len,
                schema_seen: false,
                values: None,
                complete: false,
            }),
    {
        SolutionDocument { expected_len, schema_seen: false, values: None, complete: false }
    }

    /// Recognizes a field name, each at most once.
    pub fn field(&self, name: &str) -> (result: Result<SolutionField, SolutionError>)
        ensures
            result == (match field_of(name@) {
                None => Err::<SolutionField, SolutionError>(SolutionError::UnknownField),
                Some(field) => if field is Schema && self@.schema_seen || field is Values
                    && self@.values is Some {
                    Err(SolutionError::DuplicateField { field })
                } else {
                    Ok(field)
                },
            }),
    {
        if text::same_text(name, "schema") {
            if self.schema_seen {
                return Err(SolutionError::DuplicateField { field: SolutionField::Schema });
            }
            return Ok(SolutionField::Schema);
        }
        if text::same_text(name, "values") {
            if self.values.is_some() {
                return Err(SolutionError::DuplicateField { field: SolutionField::Values });
            }
            return Ok(SolutionField::Values);
        }
        Err(SolutionError::UnknownField)
    }

    /// Takes the schema's text.
    pub fn schema(self, schema: &str) -> (result: Result<SolutionDocument, SolutionError>)
        ensures
            schema@ != SCHEMA@ ==> result == Err::<SolutionDocument, SolutionError>(
                SolutionError::UnsupportedSchema,
            ),
            schema@ == SCHEMA@ ==> (result matches Ok(document) && document@ == (DocumentModel {
                schema_seen: true,
                ..self@
            })),
    {
        proof {
            use_type_invariant(&self);
        }
        if !text::same_text(schema, SCHEMA) {
            return Err(SolutionError::UnsupportedSchema);
        }
        Ok(
            SolutionDocument {
                expected_len: self.expected_len,
                schema_seen: true,
                values: self.values,
                complete: self.complete,
            },
        )
    }

    /// Begins the list of values.
    pub fn begin_values(self) -> (document: SolutionDocument)
        requires
            self@.values is None,
        ensures
            document@ == (DocumentModel { values: Some(Seq::empty()), ..self@ }),
    {
        proof {
            use_type_invariant(&self);
        }
        let values: Vec<Binary64> = Vec::new();
        assert(values@ =~= Seq::<Binary64>::empty());
        SolutionDocument {
            expected_len: self.expected_len,
            schema_seen: self.schema_seen,
            values: Some(values),
            complete: self.complete,
        }
    }

    /// Takes one value: the length of its decimal spelling, and the binary64
    /// that it spells, if it spells one.
    pub fn value(self, decimal_len: usize, parsed: Option<Binary64>) -> (result: Result<
        SolutionDocument,
        SolutionError,
    >)
        requires
            self@.values is Some,
            !self@.complete,
        ensures
            (match value_step(self@, decimal_len as nat, parsed) {
                Err(error) => result == Err::<SolutionDocument, SolutionError>(error),
                Ok(values) => result matches Ok(document) && document@ == (DocumentModel {
                    values: Some(values),
                    ..self@
                }),
            }),
    {
        proof {
            use_type_invariant(&self);
        }
        let expected_len: usize = self.expected_len;
        match self.values {
            None => Err(SolutionError::UnknownField),
            Some(values) => {
                let index: usize = values.len();
                if index >= expected_len {
                    return Err(SolutionError::TooManyValues { expected: expected_len });
                }
                if decimal_len > MAX_DECIMAL_BYTES {
                    return Err(SolutionError::InvalidDecimal { index });
                }
                let value = match parsed {
                    Some(value) => value,
                    None => {
                        return Err(SolutionError::InvalidDecimal { index });
                    },
                };
                match validate_value(index, value) {
                    Ok(_) => {},
                    Err(error) => {
                        return Err(error);
                    },
                }
                let mut longer = values;
                longer.push(value);
                Ok(
                    SolutionDocument {
                        expected_len,
                        schema_seen: self.schema_seen,
                        values: Some(longer),
                        complete: false,
                    },
                )
            },
        }
    }

    /// Ends the list of values, which must be complete.
    pub fn end_values(self) -> (result: Result<SolutionDocument, SolutionError>)
        requires
            self@.values is Some,
        ensures
            self@.values->0.len() == self@.expected_len ==> (result matches Ok(document)
                && document@ == (DocumentModel { complete: true, ..self@ })),
            self@.values->0.len() != self@.expected_len ==> result == Err::<
                SolutionDocument,
                SolutionError,
            >(
                SolutionError::TooFewValues {
                    expected: self@.expected_len,
                    actual: self@.values->0.len() as usize,
                },
            ),
    {
        proof {
            use_type_invariant(&self);
        }
        let actual: usize = match &self.values {
            Some(values) => values.len(),
            None => 0,
        };
        if actual != self.expected_len {
            return Err(SolutionError::TooFewValues { expected: self.expected_len, actual });
        }
        Ok(
            SolutionDocument {
                expected_len: self.expected_len,
                schema_seen: self.schema_seen,
                values: self.values,
                complete: true,
            },
        )
    }

    /// The solution of a document whose fields were all read.
    pub fn finish(self) -> (result: Result<Solution, SolutionError>)
        ensures
            !self@.schema_seen ==> result == Err::<Solution, SolutionError>(
                SolutionError::MissingField { field: SolutionField::Schema },
            ),
            self@.schema_seen && !self@.complete ==> result == Err::<Solution, SolutionError>(
                SolutionError::MissingField { field: SolutionField::Values },
            ),
            self@.schema_seen && self@.complete ==> (result matches Ok(solution) && Some(solution@)
                == self@.values),
    {
        proof {
            use_type_invariant(&self);
        }
        if !self.schema_seen {
            return Err(SolutionError::MissingField { field: SolutionField::Schema });
        }
        if !self.complete {
            return Err(SolutionError::MissingField { field: SolutionField::Values });
        }
        match self.values {
            Some(values) => Ok(Solution { values }),
            None => Err(SolutionError::MissingField { field: SolutionField::Values }),
        }
    }
}

/// The first bytes of a solution document.
pub open spec fn opening_bytes() -> Seq<u8> {
    vstd::utf8::encode_utf8("{\n  \"schema\": \""@) + vstd::utf8::encode_utf8(SCHEMA@)
        + vstd::utf8::encode_utf8("\",\n  \"values\": ["@)
}

/// The bytes of one entry, with what separates it from the entry before.
pub open spec fn entry_bytes(index: int, decimal: Seq<u8>) -> Seq<u8> {
    vstd::utf8::encode_utf8(
        if index == 0 {
            "\n"@
        } else {
            ",\n"@
        },
    ) + vstd::utf8::encode_utf8("    \""@) + decimal + vstd::utf8::encode_utf8("\""@)
}

/// The last bytes of a solution document.
pub open spec fn closing_bytes(count: nat) -> Seq<u8> {
    if count == 0 {
        vstd::utf8::encode_utf8("]\n}\n"@)
    } else {
        vstd::utf8::encode_utf8("\n  ]\n}\n"@)
    }
}

/// The entries of the first `count` decimals.
pub open spec fn entries_bytes(decimals: Seq<Vec<u8>>, count: nat) -> Seq<u8>
    decreases count,
{
    if count == 0 {
        Seq::empty()
    } else {
        entries_bytes(decimals, (count - 1) as nat) + entry_bytes(
            count - 1,
            decimals[count - 1]@,
        )
    }
}

/// The opening of a solution document.
pub fn json_opening() -> (output: Vec<u8>)
    ensures
        output@ == opening_bytes(),
{
    let mut output: Vec<u8> = Vec::new();
    output.extend_from_slice("{\n  \"schema\": \"".as_bytes());
    output.extend_from_slice(SCHEMA.as_bytes());
    output.extend_from_slice("\",\n  \"values\": [".as_bytes());
    assert(output@ =~= opening_bytes());
    output
}

/// One entry of a solution document.
pub fn json_entry(index: usize, decimal: &[u8]) -> (output: Vec<u8>)
    ensures
        output@ == entry_bytes(index as int, decimal@),
{
    let mut output: Vec<u8> = Vec::new();
    if index == 0 {
        output.extend_from_slice("\n".as_bytes());
    } else {
        output.extend_from_slice(",\n".as_bytes());
    }
    output.extend_from_slice("    \"".as_bytes());
    output.extend_from_slice(decimal);
    output.extend_from_slice("\"".as_bytes());
    assert(output@ =~= entry_bytes(index as int, decimal@));
    output
}

/// The end of a solution document with a number of entries.
pub fn json_closing(count: usize) -> (output: Vec<u8>)
    ensures
        output@ == closing_bytes(count as nat),
{
    let mut output: Vec<u8> = Vec::new();
    if count == 0 {
        output.extend_from_slice("]\n}\n".as_bytes());
    } else {
        output.extend_from_slice("\n  ]\n}\n".as_bytes());
    }
    assert(output@ =~= closing_bytes(count as nat));
    output
}

/// The canonical human-readable document of decimal spellings.
pub fn to_pretty_json(decimals: &Vec<Vec<u8>>) -> (output: Vec<u8>)
    ensures
        output@ == opening_bytes() + entries_bytes(decimals@, decimals@.len()) + closing_bytes(
            decimals@.len(),
        ),
{
    let mut output = json_opening();
    let mut index: usize = 0;
    while index < decimals.len()
        invariant
            index <= decimals@.len(),
            output@ == opening_bytes() + entries_bytes(decimals@, index as nat),
        decreases decimals@.len() - index,
    {
        let entry = json_entry(index, decimals[index].as_slice());
        output.extend_from_slice(entry.as_slice());
        index = index + 1;
        assert(output@ =~= opening_bytes() + entries_bytes(decimals@, index as nat));
    }
    let closing = json_closing(decimals.len());
    output.extend_from_slice(closing.as_slice());
    assert(output@ =~= opening_bytes() + entries_bytes(decimals@, decimals@.len()) + closing_bytes(
        decimals@.len(),
    ));
    output
}

} // verus!
