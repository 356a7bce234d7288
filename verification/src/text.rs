//! Canonical decimal and hexadecimal spellings.

use vstd::prelude::*;

use crate::bytes;

verus! {

/// The decimal digits of a number, without leading zeros.
pub open spec fn decimal(value: nat) -> Seq<u8>
    decreases value,
{
    if value < 10 {
        seq![(48 + value) as u8]
    } else {
        decimal(value / 10).push((48 + value % 10) as u8)
    }
}

/// Appends the decimal digits of a number.
pub(crate) fn append_decimal(output: &mut Vec<u8>, value: u64)
    ensures
        final(output)@ == old(output)@ + decimal(value as nat),
    decreases value,
{
    if value < 10 {
        output.push((48 + value) as u8);
    } else {
        append_decimal(output, value / 10);
        output.push((48 + value % 10) as u8);
    }
    assert(output@ =~= old(output)@ + decimal(value as nat));
}

/// Whether two strings hold the same characters.
pub(crate) fn same_text(left: &str, right: &str) -> (same: bool)
    ensures
        same == (left@ == right@),
{
    proof {
        vstd::utf8::encode_utf8_decode_utf8(left@);
        vstd::utf8::encode_utf8_decode_utf8(right@);
    }
    bytes::same_bytes(left.as_bytes(), right.as_bytes())
}

/// A copy of a string.
pub(crate) fn copy_text(source: &str) -> (copy: String)
    ensures
        copy@ == source@,
{
    source.to_owned()
}

/// An ASCII decimal digit.
pub open spec fn is_digit(byte: u8) -> bool {
    48 <= byte <= 57
}

/// The number that decimal digits spell.
pub open spec fn number(digits: Seq<u8>) -> nat
    decreases digits.len(),
{
    if digits.len() == 0 {
        0
    } else {
        (10 * number(digits.drop_last()) + (digits.last() - 48)) as nat
    }
}

/// At least one digit, only digits, and no leading zero but in zero itself.
pub open spec fn canonical_digits(digits: Seq<u8>) -> bool {
    &&& digits.len() > 0
    &&& forall|i: int| 0 <= i < digits.len() ==> is_digit(#[trigger] digits[i])
    &&& digits.len() > 1 ==> digits[0] != 48
}

/// The canonical spelling of a number spells that number.
pub proof fn lemma_decimal_spells(value: nat)
    ensures
        canonical_digits(decimal(value)),
        number(decimal(value)) == value,
        value > 0 ==> decimal(value)[0] != 48,
    decreases value,
{
    reveal_with_fuel(number, 2);
    if value >= 10 {
        lemma_decimal_spells(value / 10);
        let shorter = decimal(value / 10);
        let spelling = decimal(value);
        assert(spelling.drop_last() =~= shorter);
        assert(spelling[0] == shorter[0]);
    }
}

/// Canonical digits are the spelling of their number.
pub proof fn lemma_digits_are_decimal(digits: Seq<u8>)
    requires
        canonical_digits(digits),
    ensures
        digits == decimal(number(digits)),
        digits.len() > 1 ==> number(digits) >= 10,
        digits[0] != 48 ==> number(digits) > 0,
    decreases digits.len(),
{
    reveal_with_fuel(number, 2);
    let last = digits.last();
    assert(is_digit(digits[digits.len() - 1]));
    if digits.len() == 1 {
        assert(digits.drop_last().len() == 0);
        assert(digits =~= seq![(48 + number(digits)) as u8]);
    } else {
        let shorter = digits.drop_last();
        assert forall|i: int| 0 <= i < shorter.len() implies is_digit(#[trigger] shorter[i]) by {
            assert(is_digit(digits[i]));
        }
        assert(shorter[0] == digits[0]);
        lemma_digits_are_decimal(shorter);
        let value = number(digits);
        assert(value == 10 * number(shorter) + (last - 48));
        assert(value / 10 == number(shorter));
        assert(value % 10 == last - 48);
        assert(digits =~= shorter.push(last));
    }
}

/// More digits never make a number smaller.
proof fn lemma_number_grows(digits: Seq<u8>, count: int)
    requires
        0 <= count <= digits.len(),
        forall|i: int| 0 <= i < digits.len() ==> is_digit(#[trigger] digits[i]),
    ensures
        number(digits.take(count)) <= number(digits),
    decreases digits.len() - count,
{
    if count == digits.len() {
        assert(digits.take(count) =~= digits);
    } else {
        lemma_number_grows(digits, count + 1);
        let longer = digits.take(count + 1);
        assert(longer.drop_last() =~= digits.take(count));
        assert(is_digit(digits[count]));
    }
}

/// Reads canonical decimal digits of a value up to a bound.
fn parse_digits(digits: &[u8], bound: u64) -> (result: Option<u64>)
    ensures
        (match result {
            Some(value) => value <= bound && digits@ == decimal(value as nat),
            None => forall|value: nat| value <= bound ==> digits@ != #[trigger] decimal(value),
        }),
{
    let length: usize = digits.len();
    proof {
        assert forall|value: nat| digits@ == #[trigger] decimal(value) implies canonical_digits(
            digits@,
        ) && number(digits@) == value by {
            lemma_decimal_spells(value);
        }
    }
    if length == 0 || (length > 1 && digits[0] == 48) {
        return None;
    }
    let mut value: u64 = 0;
    let mut index: usize = 0;
    assert(digits@.take(0) =~= Seq::<u8>::empty());
    while index < length
        invariant
            index <= length,
            length == digits@.len(),
            value == number(digits@.take(index as int)),
            value <= bound,
            forall|i: int| 0 <= i < index ==> is_digit(#[trigger] digits@[i]),
            forall|other: nat|
                digits@ == #[trigger] decimal(other) ==> canonical_digits(digits@) && number(
                    digits@,
                ) == other,
        decreases length - index,
    {
        let byte: u8 = digits[index];
        if byte < 48 || byte > 57 {
            assert(!is_digit(digits@[index as int]));
            return None;
        }
        let next: u128 = value as u128 * 10 + (byte - 48) as u128;
        proof {
            let longer = digits@.take(index + 1);
            assert(longer.drop_last() =~= digits@.take(index as int));
            assert(longer.last() == byte);
            assert(number(longer) == next);
        }
        if next > bound as u128 {
            proof {
                assert forall|other: nat| other <= bound implies digits@ != #[trigger] decimal(
                    other,
                ) by {
                    if digits@ == decimal(other) {
                        lemma_number_grows(digits@, index + 1);
                    }
                }
            }
            return None;
        }
        value = next as u64;
        index = index + 1;
    }
    proof {
        assert(digits@.take(index as int) =~= digits@);
        lemma_digits_are_decimal(digits@);
    }
    Some(value)
}

/// Reads an unsigned decimal in its one canonical spelling.
pub fn parse_decimal_u64(spelling: &str) -> (result: Option<u64>)
    ensures
        (match result {
            Some(value) => vstd::utf8::encode_utf8(spelling@) == decimal(value as nat),
            None => forall|value: u64|
                vstd::utf8::encode_utf8(spelling@) != #[trigger] decimal(value as nat),
        }),
{
    parse_digits(spelling.as_bytes(), u64::MAX)
}

/// The canonical spelling of a signed number.
pub open spec fn signed_decimal(value: int) -> Seq<u8> {
    if value < 0 {
        seq![45u8] + decimal((-value) as nat)
    } else {
        decimal(value as nat)
    }
}

/// Reads a signed decimal in its one canonical spelling.
pub fn parse_decimal_i64(spelling: &str) -> (result: Option<i64>)
    ensures
        (match result {
            Some(value) => vstd::utf8::encode_utf8(spelling@) == signed_decimal(value as int),
            None => forall|value: i64|
                vstd::utf8::encode_utf8(spelling@) != #[trigger] signed_decimal(value as int),
        }),
{
    let digits = spelling.as_bytes();
    if digits.len() > 0 && digits[0] == 45 {
        let rest = vstd::slice::slice_subrange(digits, 1, digits.len());
        let parsed = parse_digits(rest, 0x8000_0000_0000_0000);
        proof {
            assert(digits@ =~= seq![45u8] + rest@);
            assert forall|value: i64| digits@ == #[trigger] signed_decimal(
                value as int,
            ) implies value < 0 && rest@ == decimal((-value) as nat) by {
                if value >= 0 {
                    lemma_decimal_spells(value as nat);
                    assert(is_digit(digits@[0]));
                } else {
                    assert(rest@ =~= decimal((-value) as nat));
                }
            }
            lemma_decimal_spells(0);
        }
        match parsed {
            None => None,
            Some(magnitude) => {
                if magnitude == 0 {
                    proof {
                        assert forall|value: i64| digits@ != #[trigger] signed_decimal(
                            value as int,
                        ) by {
                            if digits@ == signed_decimal(value as int) {
                                lemma_decimal_spells((-value) as nat);
                            }
                        }
                    }
                    None
                } else if magnitude == 0x8000_0000_0000_0000 {
                    Some(i64::MIN)
                } else {
                    Some(-(magnitude as i64))
                }
            },
        }
    } else {
        let parsed = parse_digits(digits, 0x7fff_ffff_ffff_ffff);
        proof {
            assert forall|value: i64| value < 0 implies digits@ != #[trigger] signed_decimal(
                value as int,
            ) by {
                if digits@ == signed_decimal(value as int) {
                    assert(digits@[0] == 45);
                }
            }
        }
        match parsed {
            None => None,
            Some(value) => Some(value as i64),
        }
    }
}

/// The lowercase hexadecimal digit of a value below sixteen.
pub open spec fn hex_digit(value: int) -> char {
    if value < 10 {
        (48 + value) as char
    } else {
        (87 + value) as char
    }
}

/// The lowercase hexadecimal spelling of bytes.
pub open spec fn hex_text(bytes: Seq<u8>) -> Seq<char> {
    Seq::new(
        2 * bytes.len(),
        |i: int|
            hex_digit(
                if i % 2 == 0 {
                    bytes[i / 2] as int / 16
                } else {
                    bytes[i / 2] as int % 16
                },
            ),
    )
}

/// The value of a hexadecimal digit of either case.
pub open spec fn hex_value(byte: u8) -> Option<int> {
    if 48 <= byte <= 57 {
        Some(byte - 48)
    } else if 97 <= byte <= 102 {
        Some(byte - 87)
    } else if 65 <= byte <= 70 {
        Some(byte - 55)
    } else {
        None
    }
}

/// The bytes that hexadecimal digits of either case spell, if they do.
pub open spec fn hex_bytes(digits: Seq<u8>) -> Option<Seq<u8>> {
    if digits.len() % 2 == 0 && forall|i: int|
        0 <= i < digits.len() ==> hex_value(#[trigger] digits[i]) is Some {
        Some(
            Seq::new(
                (digits.len() / 2) as nat,
                |i: int| (16 * hex_value(digits[2 * i])->0 + hex_value(digits[2 * i + 1])->0) as u8,
            ),
        )
    } else {
        None
    }
}

/// Calls `hex::encode`.
///
/// Claims that the text is the lowercase spelling of the bytes.
#[verifier::external_body]
pub(crate) fn hex_encode(bytes: &[u8]) -> (text: String)
    ensures
        text@ == hex_text(bytes@),
{
    hex::encode(bytes)
}

/// Calls `hex::decode`.
///
/// Claims that exactly texts of an even number of hexadecimal digits are
/// decoded, each pair to its byte.
#[verifier::external_body]
fn hex_decode(text: &str) -> (bytes: Option<Vec<u8>>)
    ensures
        (match hex_bytes(vstd::utf8::encode_utf8(text@)) {
            Some(expected) => bytes matches Some(found) && found@ == expected,
            None => bytes is None,
        }),
{
    hex::decode(text).ok()
}

/// Only decimal digits and the letters `a` to `f`.
pub open spec fn lower_hex(digits: Seq<u8>) -> bool {
    forall|i: int|
        0 <= i < digits.len() ==> 48 <= #[trigger] digits[i] <= 57 || 97 <= digits[i] <= 102
}

/// Whether a text holds only lowercase hexadecimal digits.
fn is_lower_hex(text: &str) -> (result: bool)
    ensures
        result == lower_hex(vstd::utf8::encode_utf8(text@)),
{
    let digits = text.as_bytes();
    let mut index: usize = 0;
    while index < digits.len()
        invariant
            digits@ == vstd::utf8::encode_utf8(text@),
            index <= digits@.len(),
            lower_hex(digits@.take(index as int)),
        decreases digits@.len() - index,
    {
        let byte: u8 = digits[index];
        if !((48 <= byte && byte <= 57) || (97 <= byte && byte <= 102)) {
            assert(!lower_hex(digits@)) by {
                assert(digits@[index as int] == byte);
            }
            return false;
        }
        proof {
            let before = digits@.take(index as int);
            let after = digits@.take(index + 1);
            assert forall|i: int| 0 <= i < after.len() implies 48 <= #[trigger] after[i] <= 57
                || 97 <= after[i] <= 102 by {
                if i < index {
                    assert(after[i] == before[i]);
                }
            }
        }
        index = index + 1;
    }
    assert(digits@.take(index as int) =~= digits@);
    true
}

/// Lowercase digits spell exactly the bytes that they decode to.
proof fn lemma_lower_hex_spells(text: Seq<char>, bytes: Seq<u8>)
    requires
        lower_hex(vstd::utf8::encode_utf8(text)),
        hex_bytes(vstd::utf8::encode_utf8(text)) == Some(bytes),
    ensures
        text == hex_text(bytes),
        vstd::utf8::encode_utf8(text).len() == 2 * bytes.len(),
{
    let digits = vstd::utf8::encode_utf8(text);
    lemma_ascii(text);
    assert forall|i: int| 0 <= i < text.len() implies text[i] == hex_text(bytes)[i] by {
        assert(digits[i] == text[i] as u8);
        let pair = i / 2;
        let high = digits[2 * pair];
        let low = digits[2 * pair + 1];
        assert(hex_value(high) is Some);
        assert(hex_value(low) is Some);
        assert(48 <= high <= 57 || 97 <= high <= 102);
        assert(48 <= low <= 57 || 97 <= low <= 102);
        let h = hex_value(high)->0;
        let l = hex_value(low)->0;
        assert(0 <= h < 16 && 0 <= l < 16);
        assert(bytes[pair] == 16 * h + l);
        assert(bytes[pair] as int / 16 == h && bytes[pair] as int % 16 == l);
    }
    assert(text =~= hex_text(bytes));
}

/// Bytes below 128 are the characters themselves.
proof fn lemma_ascii(text: Seq<char>)
    requires
        forall|i: int|
            0 <= i < vstd::utf8::encode_utf8(text).len() ==> #[trigger] vstd::utf8::encode_utf8(
                text,
            )[i] < 128,
    ensures
        vstd::utf8::is_ascii_chars(text),
        vstd::utf8::encode_utf8(text) == Seq::new(text.len(), |i: int| text[i] as u8),
    decreases text.len(),
{
    if text.len() > 0 {
        let encoded = vstd::utf8::encode_utf8(text);
        let rest = text.drop_first();
        let first = encoded[0];
        vstd::utf8::encode_utf8_first_scalar(text);
        assert(encoded[0] < 128);
        assert(vstd::utf8::is_leading_byte_width_1(first));
        let character: char = text[0];
        let scalar = character as u32;
        vstd::utf8::char_is_scalar(character);
        vstd::utf8::char_u32_cast(character, scalar);
        assert(character as int == scalar);
        let head = vstd::utf8::encode_scalar(scalar);
        assert(head.len() == 1);
        assert(vstd::utf8::has_width_1_encoding(scalar));
        assert(text[0] <= '\u{7f}');
        let tail = vstd::utf8::encode_utf8(rest);
        assert forall|i: int| 0 <= i < tail.len() implies #[trigger] tail[i] < 128 by {
            assert(encoded[i + 1] == tail[i]);
        }
        lemma_ascii(rest);
        assert forall|i: int| 0 <= i < text.len() implies '\0' <= #[trigger] text[i]
            <= '\u{7f}' by {
            if i > 0 {
                assert(rest[i - 1] == text[i]);
            }
        }
        vstd::utf8::is_ascii_chars_encode_utf8(text);
    }
    assert(vstd::utf8::encode_utf8(text) =~= Seq::new(text.len(), |i: int| text[i] as u8));
}

/// A hexadecimal spelling is lowercase digits that decode to its bytes.
pub proof fn lemma_hex_text_decodes(bytes: Seq<u8>)
    ensures
        lower_hex(vstd::utf8::encode_utf8(hex_text(bytes))),
        hex_bytes(vstd::utf8::encode_utf8(hex_text(bytes))) == Some(bytes),
{
    let text = hex_text(bytes);
    let digits = vstd::utf8::encode_utf8(text);
    assert forall|i: int| 0 <= i < text.len() implies '\0' <= #[trigger] text[i] <= '\u{7f}' by {
        lemma_hex_digit(bytes[i / 2]);
    }
    vstd::utf8::is_ascii_chars_encode_utf8(text);
    assert forall|i: int| 0 <= i < digits.len() implies 48 <= #[trigger] digits[i] <= 57 || 97
        <= digits[i] <= 102 by {
        assert(digits[i] == text[i] as u8);
        lemma_hex_digit(bytes[i / 2]);
    }
    assert forall|i: int| 0 <= i < digits.len() implies hex_value(#[trigger] digits[i]) is Some by {
        assert(48 <= digits[i] <= 57 || 97 <= digits[i] <= 102);
    }
    let decoded = hex_bytes(digits)->0;
    assert forall|i: int| 0 <= i < bytes.len() implies decoded[i] == bytes[i] by {
        lemma_hex_digit(bytes[i]);
        assert(digits[2 * i] == text[2 * i] as u8);
        assert(digits[2 * i + 1] == text[2 * i + 1] as u8);
        assert((2 * i) / 2 == i && (2 * i) % 2 == 0);
        assert((2 * i + 1) / 2 == i && (2 * i + 1) % 2 == 1);
    }
    assert(decoded =~= bytes);
}

/// The two digits of a byte spell it.
proof fn lemma_hex_digit(byte: u8)
    ensures
        ({
            let high = hex_digit(byte as int / 16) as u8;
            let low = hex_digit(byte as int % 16) as u8;
            &&& hex_digit(byte as int / 16) as u32 == high
            &&& hex_digit(byte as int % 16) as u32 == low
            &&& 48 <= high <= 57 || 97 <= high <= 102
            &&& 48 <= low <= 57 || 97 <= low <= 102
            &&& hex_value(high) == Some(byte as int / 16)
            &&& hex_value(low) == Some(byte as int % 16)
        }),
{
}

/// Reads the lowercase hexadecimal spelling of some bytes.
pub(crate) fn parse_lower_hex(text: &str) -> (result: Option<Vec<u8>>)
    ensures
        (match result {
            Some(bytes) => text@ == hex_text(bytes@),
            None => forall|bytes: Seq<u8>| text@ != #[trigger] hex_text(bytes),
        }),
{
    proof {
        assert forall|bytes: Seq<u8>| text@ == #[trigger] hex_text(bytes) implies lower_hex(
            vstd::utf8::encode_utf8(text@),
        ) && hex_bytes(vstd::utf8::encode_utf8(text@)) == Some(bytes) by {
            lemma_hex_text_decodes(bytes);
        }
    }
    if !is_lower_hex(text) {
        return None;
    }
    match hex_decode(text) {
        Some(bytes) => {
            proof {
                lemma_lower_hex_spells(text@, bytes@);
            }
            Some(bytes)
        },
        None => None,
    }
}

/// Reads exactly 64 lowercase hexadecimal characters.
pub(crate) fn parse_hex_32(text: &str) -> (result: Option<[u8; 32]>)
    ensures
        (match result {
            Some(bytes) => text@ == hex_text(bytes@),
            None => forall|bytes: Seq<u8>|
                bytes.len() == 32 ==> text@ != #[trigger] hex_text(bytes),
        }),
{
    match parse_lower_hex(text) {
        Some(decoded) => if decoded.len() == 32 {
            Some(bytes::to_array_32(decoded.as_slice()))
        } else {
            proof {
                assert forall|bytes: Seq<u8>| bytes.len() == 32 implies text@ != #[trigger] hex_text(
                    bytes,
                ) by {
                    assert(hex_text(bytes).len() == 64);
                }
            }
            None
        },
        None => None,
    }
}

} // verus!
