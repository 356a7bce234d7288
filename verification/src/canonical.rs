//! Canonical byte encoding: big-endian integers, length-prefixed byte strings,
//! and digests separated by domain.

use vstd::prelude::*;

use crate::bytes;
use crate::hashing;
use crate::text;

verus! {

/// A 256-bit digest.
#[derive(Clone, Copy, Debug, PartialEq, Eq, Hash)]
pub struct Digest {
    bytes: [u8; 32],
}

impl View for Digest {
    type V = Seq<u8>;

    closed spec fn view(&self) -> Seq<u8> {
        self.bytes@
    }
}

impl Digest {
    pub fn from_bytes(bytes: [u8; 32]) -> (digest: Digest)
        ensures
            digest@ == bytes@,
    {
        Digest { bytes }
    }

    pub fn as_bytes(&self) -> (bytes: &[u8; 32])
        ensures
            bytes@ == self@,
    {
        &self.bytes
    }

    pub fn into_bytes(self) -> (bytes: [u8; 32])
        ensures
            bytes@ == self@,
    {
        self.bytes
    }

    /// The lowercase hexadecimal spelling.
    pub fn to_hex(&self) -> (spelling: String)
        ensures
            spelling@ == text::hex_text(self@),
    {
        text::hex_encode(self.bytes.as_slice())
    }

    /// Reads exactly 64 lowercase hexadecimal characters.
    pub fn from_hex(spelling: &str) -> (result: Option<Digest>)
        ensures
            (match result {
                Some(found) => spelling@ == text::hex_text(found@),
                None => forall|bytes: Seq<u8>|
                    bytes.len() == 32 ==> spelling@ != #[trigger] text::hex_text(bytes),
            }),
    {
        match text::parse_hex_32(spelling) {
            Some(bytes) => Some(Digest { bytes }),
            None => None,
        }
    }

    /// Whether two digests hold the same bytes.
    pub fn equals(&self, other: &Digest) -> (same: bool)
        ensures
            same == (self@ == other@),
            same == (*self == *other),
    {
        proof {
            lemma_digest_extensional(*self, *other);
        }
        bytes::same_bytes(self.bytes.as_slice(), other.bytes.as_slice())
    }
}

/// A digest is determined by its bytes.
pub proof fn lemma_digest_extensional(left: Digest, right: Digest)
    ensures
        (left == right) == (left@ == right@),
        left@.len() == 32,
{
    if left@ == right@ {
        assert(left.bytes == right.bytes);
    }
}

/// A byte string preceded by its length as eight big-endian bytes.
pub open spec fn framed(payload: Seq<u8>) -> Seq<u8> {
    bytes::be_bytes(payload.len(), 8) + payload
}

/// Append-only canonical byte encoder.
#[derive(Clone, Debug, PartialEq, Eq)]
pub struct Encoder {
    bytes: Vec<u8>,
}

impl View for Encoder {
    type V = Seq<u8>;

    closed spec fn view(&self) -> Seq<u8> {
        self.bytes@
    }
}

impl Encoder {
    pub fn new() -> (encoder: Encoder)
        ensures
            encoder@ == Seq::<u8>::empty(),
    {
        Encoder { bytes: Vec::new() }
    }

    pub fn with_capacity(capacity: usize) -> (encoder: Encoder)
        ensures
            encoder@ == Seq::<u8>::empty(),
    {
        Encoder { bytes: Vec::with_capacity(capacity) }
    }

    pub fn write_u8(&mut self, value: u8)
        ensures
            final(self)@ == old(self)@ + bytes::be_bytes(value as nat, 1),
    {
        bytes::append_be(&mut self.bytes, value as u128, 1);
    }

    pub fn write_u16(&mut self, value: u16)
        ensures
            final(self)@ == old(self)@ + bytes::be_bytes(value as nat, 2),
    {
        bytes::append_be(&mut self.bytes, value as u128, 2);
    }

    pub fn write_u32(&mut self, value: u32)
        ensures
            final(self)@ == old(self)@ + bytes::be_bytes(value as nat, 4),
    {
        bytes::append_be(&mut self.bytes, value as u128, 4);
    }

    pub fn write_u64(&mut self, value: u64)
        ensures
            final(self)@ == old(self)@ + bytes::be_bytes(value as nat, 8),
    {
        bytes::append_be(&mut self.bytes, value as u128, 8);
    }

    /// Writes the two's complement of a signed value.
    pub fn write_i64(&mut self, value: i64)
        ensures
            final(self)@ == old(self)@ + bytes::be_bytes(bytes::twos_complement_64(value), 8),
    {
        self.write_u64(bytes::to_twos_complement_64(value));
    }

    /// Writes bytes whose length the reader knows.
    pub fn write_fixed_bytes(&mut self, bytes: &[u8])
        ensures
            final(self)@ == old(self)@ + bytes@,
    {
        self.bytes.extend_from_slice(bytes);
        assert(self.bytes@ =~= old(self)@ + bytes@);
    }

    /// Writes bytes behind their length.
    pub fn write_bytes(&mut self, bytes: &[u8])
        ensures
            final(self)@ == old(self)@ + framed(bytes@),
    {
        self.write_u64(bytes.len() as u64);
        self.write_fixed_bytes(bytes);
        assert(self@ =~= old(self)@ + framed(bytes@));
    }

    /// Writes the UTF-8 bytes of a string behind their length.
    pub fn write_str(&mut self, value: &str)
        ensures
            final(self)@ == old(self)@ + framed(vstd::utf8::encode_utf8(value@)),
    {
        self.write_bytes(value.as_bytes());
    }

    pub fn write_digest(&mut self, digest: &Digest)
        ensures
            final(self)@ == old(self)@ + digest@,
    {
        self.write_fixed_bytes(digest.bytes.as_slice());
    }

    pub fn into_bytes(self) -> (bytes: Vec<u8>)
        ensures
            bytes@ == self@,
    {
        self.bytes
    }
}

/// A value with one canonical byte encoding.
pub trait CanonicalEncode {
    /// The canonical bytes of the value.
    spec fn encoding(&self) -> Seq<u8>;

    fn encode(&self, encoder: &mut Encoder)
        ensures
            final(encoder)@ == old(encoder)@ + self.encoding(),
    ;
}

/// The canonical bytes of a value.
pub fn encode_to_vec<T: CanonicalEncode>(value: &T) -> (bytes: Vec<u8>)
    ensures
        bytes@ == value.encoding(),
{
    let mut encoder = Encoder::new();
    value.encode(&mut encoder);
    assert(encoder@ =~= value.encoding());
    encoder.into_bytes()
}

/// The digest of a payload within a domain: BLAKE3 over both, each behind its
/// length, so that no two domain and payload pairs share an input.
pub open spec fn domain_digest(domain: Seq<u8>, payload: Seq<u8>) -> Seq<u8> {
    hashing::blake3_digest(framed(domain) + framed(payload))
}

/// Digest of `payload` separated by `domain`.
pub fn domain_separated_digest(domain: &[u8], payload: &[u8]) -> (digest: Digest)
    ensures
        digest@ == domain_digest(domain@, payload@),
{
    let mut encoder = Encoder::new();
    encoder.write_bytes(domain);
    encoder.write_bytes(payload);
    let input = encoder.into_bytes();
    assert(input@ =~= framed(domain@) + framed(payload@));
    Digest { bytes: hashing::blake3_hash(input.as_slice()) }
}

/// Framing is unambiguous: two framed strings that begin the same byte sequence
/// hold the same payload and leave the same rest.
pub proof fn framing_is_unambiguous(
    first: Seq<u8>,
    first_rest: Seq<u8>,
    second: Seq<u8>,
    second_rest: Seq<u8>,
)
    requires
        framed(first) + first_rest == framed(second) + second_rest,
        first.len() <= u64::MAX,
        second.len() <= u64::MAX,
    ensures
        first == second,
        first_rest == second_rest,
{
    let left = framed(first) + first_rest;
    let right = framed(second) + second_rest;
    bytes::lemma_byte_powers();
    bytes::lemma_be_bytes_len(first.len(), 8);
    bytes::lemma_be_bytes_len(second.len(), 8);
    bytes::lemma_be_round_trip(first.len(), 8);
    bytes::lemma_be_round_trip(second.len(), 8);
    assert(left.take(8) =~= bytes::be_bytes(first.len(), 8));
    assert(right.take(8) =~= bytes::be_bytes(second.len(), 8));
    assert(left.subrange(8, 8 + first.len() as int) =~= first);
    assert(right.subrange(8, 8 + second.len() as int) =~= second);
    assert(left.skip(8 + first.len() as int) =~= first_rest);
    assert(right.skip(8 + second.len() as int) =~= second_rest);
}

/// Bounds on what a reader accepts.
#[derive(Clone, Copy, Debug, PartialEq, Eq, Structural)]
pub struct DecodeLimits {
    pub max_input_bytes: usize,
    pub max_field_bytes: usize,
}

/// Why canonical bytes could not be read.
#[derive(Clone, Copy, Debug, PartialEq, Eq, Structural)]
pub enum DecodeError {
    InputTooLarge { actual: usize, maximum: usize },
    FieldTooLarge { actual: u64, maximum: usize },
    UnexpectedEnd,
    TrailingBytes { remaining: usize },
    InvalidUtf8,
}

/// Bounded canonical byte reader.
#[derive(Clone, Debug)]
pub struct Reader<'a> {
    input: &'a [u8],
    position: usize,
    max_field_bytes: usize,
}

impl<'a> Reader<'a> {
    /// The bytes not read yet.
    pub closed spec fn rest(&self) -> Seq<u8> {
        self.input@.skip(self.position as int)
    }

    /// The largest accepted length of a length-prefixed field.
    pub closed spec fn field_limit(&self) -> usize {
        self.max_field_bytes
    }

    /// The reader stands within its input.
    pub closed spec fn wf(&self) -> bool {
        self.position <= self.input@.len()
    }

    pub fn new(input: &'a [u8], limits: DecodeLimits) -> (result: Result<Reader<'a>, DecodeError>)
        ensures
            input@.len() > limits.max_input_bytes ==> result == Err::<Reader<'a>, DecodeError>(
                DecodeError::InputTooLarge {
                    actual: input@.len() as usize,
                    maximum: limits.max_input_bytes,
                },
            ),
            input@.len() <= limits.max_input_bytes ==> (result matches Ok(reader) && reader.wf()
                && reader.rest() == input@ && reader.field_limit() == limits.max_field_bytes),
    {
        if input.len() > limits.max_input_bytes {
            return Err(
                DecodeError::InputTooLarge {
                    actual: input.len(),
                    maximum: limits.max_input_bytes,
                },
            );
        }
        let reader = Reader { input, position: 0, max_field_bytes: limits.max_field_bytes };
        assert(reader.rest() =~= input@);
        Ok(reader)
    }

    /// Reads the next `count` bytes.
    pub fn read_fixed_bytes(&mut self, count: usize) -> (result: Result<&'a [u8], DecodeError>)
        requires
            old(self).wf(),
        ensures
            final(self).wf(),
            final(self).field_limit() == old(self).field_limit(),
            count > old(self).rest().len() ==> result == Err::<&'a [u8], DecodeError>(
                DecodeError::UnexpectedEnd,
            ) && final(self).rest() == old(self).rest(),
            count <= old(self).rest().len() ==> (result matches Ok(bytes) && bytes@ == old(
                self,
            ).rest().take(count as int) && final(self).rest() == old(self).rest().skip(
                count as int,
            )),
    {
        if count > self.input.len() - self.position {
            return Err(DecodeError::UnexpectedEnd);
        }
        let end: usize = self.position + count;
        let bytes = vstd::slice::slice_subrange(self.input, self.position, end);
        proof {
            assert(bytes@ =~= old(self).rest().take(count as int));
            assert(self.input@.skip(end as int) =~= old(self).rest().skip(count as int));
        }
        self.position = end;
        Ok(bytes)
    }

    fn read_integer(&mut self, width: usize) -> (result: Result<u64, DecodeError>)
        requires
            old(self).wf(),
            width <= 8,
        ensures
            final(self).wf(),
            final(self).field_limit() == old(self).field_limit(),
            width > old(self).rest().len() ==> result == Err::<u64, DecodeError>(
                DecodeError::UnexpectedEnd,
            ) && final(self).rest() == old(self).rest(),
            width <= old(self).rest().len() ==> (result matches Ok(value) && value
                == bytes::be_value(old(self).rest().take(width as int)) && final(self).rest()
                == old(self).rest().skip(width as int)),
    {
        match self.read_fixed_bytes(width) {
            Ok(bytes) => Ok(bytes::read_be(bytes)),
            Err(error) => Err(error),
        }
    }

    pub fn read_u8(&mut self) -> (result: Result<u8, DecodeError>)
        requires
            old(self).wf(),
        ensures
            final(self).wf(),
            final(self).field_limit() == old(self).field_limit(),
            old(self).rest().len() < 1 ==> result == Err::<u8, DecodeError>(
                DecodeError::UnexpectedEnd,
            ) && final(self).rest() == old(self).rest(),
            old(self).rest().len() >= 1 ==> (result matches Ok(value) && value == bytes::be_value(
                old(self).rest().take(1),
            ) && final(self).rest() == old(self).rest().skip(1)),
    {
        match self.read_integer(1) {
            Ok(value) => {
                proof {
                    bytes::lemma_be_value_bound(old(self).rest().take(1));
                    bytes::lemma_byte_powers();
                }
                Ok(value as u8)
            },
            Err(error) => Err(error),
        }
    }

    pub fn read_u16(&mut self) -> (result: Result<u16, DecodeError>)
        requires
            old(self).wf(),
        ensures
            final(self).wf(),
            final(self).field_limit() == old(self).field_limit(),
            old(self).rest().len() < 2 ==> result == Err::<u16, DecodeError>(
                DecodeError::UnexpectedEnd,
            ) && final(self).rest() == old(self).rest(),
            old(self).rest().len() >= 2 ==> (result matches Ok(value) && value == bytes::be_value(
                old(self).rest().take(2),
            ) && final(self).rest() == old(self).rest().skip(2)),
    {
        match self.read_integer(2) {
            Ok(value) => {
                proof {
                    bytes::lemma_be_value_bound(old(self).rest().take(2));
                    bytes::lemma_byte_powers();
                }
                Ok(value as u16)
            },
            Err(error) => Err(error),
        }
    }

    pub fn read_u32(&mut self) -> (result: Result<u32, DecodeError>)
        requires
            old(self).wf(),
        ensures
            final(self).wf(),
            final(self).field_limit() == old(self).field_limit(),
            old(self).rest().len() < 4 ==> result == Err::<u32, DecodeError>(
                DecodeError::UnexpectedEnd,
            ) && final(self).rest() == old(self).rest(),
            old(self).rest().len() >= 4 ==> (result matches Ok(value) && value == bytes::be_value(
                old(self).rest().take(4),
            ) && final(self).rest() == old(self).rest().skip(4)),
    {
        match self.read_integer(4) {
            Ok(value) => {
                proof {
                    bytes::lemma_be_value_bound(old(self).rest().take(4));
                    bytes::lemma_byte_powers();
                }
                Ok(value as u32)
            },
            Err(error) => Err(error),
        }
    }

    /// Reads the two's complement of a signed value.
    pub fn read_i64(&mut self) -> (result: Result<i64, DecodeError>)
        requires
            old(self).wf(),
        ensures
            final(self).wf(),
            final(self).field_limit() == old(self).field_limit(),
            old(self).rest().len() < 8 ==> result == Err::<i64, DecodeError>(
                DecodeError::UnexpectedEnd,
            ) && final(self).rest() == old(self).rest(),
            old(self).rest().len() >= 8 ==> (result matches Ok(value) && value == bytes::signed_64(
                bytes::be_value(old(self).rest().take(8)),
            ) && final(self).rest() == old(self).rest().skip(8)),
    {
        match self.read_integer(8) {
            Ok(value) => Ok(bytes::from_twos_complement_64(value)),
            Err(error) => Err(error),
        }
    }

    pub fn read_u64(&mut self) -> (result: Result<u64, DecodeError>)
        requires
            old(self).wf(),
        ensures
            final(self).wf(),
            final(self).field_limit() == old(self).field_limit(),
            old(self).rest().len() < 8 ==> result == Err::<u64, DecodeError>(
                DecodeError::UnexpectedEnd,
            ) && final(self).rest() == old(self).rest(),
            old(self).rest().len() >= 8 ==> (result matches Ok(value) && value == bytes::be_value(
                old(self).rest().take(8),
            ) && final(self).rest() == old(self).rest().skip(8)),
    {
        self.read_integer(8)
    }

    pub fn read_digest(&mut self) -> (result: Result<Digest, DecodeError>)
        requires
            old(self).wf(),
        ensures
            final(self).wf(),
            final(self).field_limit() == old(self).field_limit(),
            old(self).rest().len() < 32 ==> result == Err::<Digest, DecodeError>(
                DecodeError::UnexpectedEnd,
            ) && final(self).rest() == old(self).rest(),
            old(self).rest().len() >= 32 ==> (result matches Ok(digest) && digest@ == old(
                self,
            ).rest().take(32) && final(self).rest() == old(self).rest().skip(32)),
    {
        match self.read_fixed_bytes(32) {
            Ok(bytes) => Ok(Digest { bytes: bytes::to_array_32(bytes) }),
            Err(error) => Err(error),
        }
    }

    /// Reads a length-prefixed field that is at most `maximum` bytes long, and
    /// no longer than the reader's own field limit.
    pub fn read_bytes(&mut self, maximum: usize) -> (result: Result<&'a [u8], DecodeError>)
        requires
            old(self).wf(),
        ensures
            final(self).wf(),
            final(self).field_limit() == old(self).field_limit(),
            (match field_outcome(old(self).rest(), least(maximum, old(self).field_limit())) {
                Err(error) => result == Err::<&'a [u8], DecodeError>(error),
                Ok(payload) => result matches Ok(bytes) && bytes@ == payload && final(self).rest()
                    == old(self).rest().skip(8 + payload.len() as int),
            }),
    {
        let limit: usize = if maximum < self.max_field_bytes {
            maximum
        } else {
            self.max_field_bytes
        };
        let ghost start = self.rest();
        let length: u64 = match self.read_u64() {
            Ok(length) => length,
            Err(error) => {
                return Err(error);
            },
        };
        if length > limit as u64 {
            return Err(DecodeError::FieldTooLarge { actual: length, maximum: limit });
        }
        let ghost after = self.rest();
        let result = self.read_fixed_bytes(length as usize);
        proof {
            if length <= after.len() {
                assert(after.take(length as int) =~= start.subrange(8, 8 + length as int));
                assert(after.skip(length as int) =~= start.skip(8 + length as int));
            }
        }
        result
    }

    /// Reads a length-prefixed UTF-8 string of at most `maximum` bytes.
    pub fn read_str(&mut self, maximum: usize) -> (result: Result<String, DecodeError>)
        requires
            old(self).wf(),
        ensures
            final(self).wf(),
            final(self).field_limit() == old(self).field_limit(),
            (match text_outcome(old(self).rest(), least(maximum, old(self).field_limit())) {
                Err(error) => result == Err::<String, DecodeError>(error),
                Ok(expected) => result matches Ok(text) && text@ == expected && final(self).rest()
                    == old(self).rest().skip(
                    8 + vstd::utf8::encode_utf8(expected).len() as int,
                ),
            }),
    {
        match self.read_bytes(maximum) {
            Ok(bytes) => match utf8_text(bytes) {
                Some(text) => {
                    proof {
                        vstd::utf8::encode_utf8_decode_utf8(text@);
                    }
                    Ok(text)
                },
                None => Err(DecodeError::InvalidUtf8),
            },
            Err(error) => Err(error),
        }
    }

    /// Accepts the end of the input and nothing else.
    pub fn finish(&self) -> (result: Result<(), DecodeError>)
        requires
            self.wf(),
        ensures
            self.rest().len() == 0 ==> result == Ok::<(), DecodeError>(()),
            self.rest().len() != 0 ==> result == Err::<(), DecodeError>(
                DecodeError::TrailingBytes { remaining: self.rest().len() as usize },
            ),
    {
        let remaining: usize = self.input.len() - self.position;
        if remaining != 0 {
            return Err(DecodeError::TrailingBytes { remaining });
        }
        Ok(())
    }
}

/// Calls `String::from_utf8`.
///
/// Claims that exactly valid UTF-8 is accepted, and that the string encodes as
/// the bytes it was made from.
#[verifier::external_body]
fn utf8_text(bytes: &[u8]) -> (text: Option<String>)
    ensures
        (match text {
            Some(found) => vstd::utf8::encode_utf8(found@) == bytes@,
            None => true,
        }),
        text is None == !vstd::utf8::valid_utf8(bytes@),
{
    String::from_utf8(bytes.to_vec()).ok()
}

/// What reading one length-prefixed string gives.
pub open spec fn text_outcome(input: Seq<u8>, limit: usize) -> Result<Seq<char>, DecodeError> {
    match field_outcome(input, limit) {
        Err(error) => Err(error),
        Ok(payload) => if vstd::utf8::valid_utf8(payload) {
            Ok(vstd::utf8::decode_utf8(payload))
        } else {
            Err(DecodeError::InvalidUtf8)
        },
    }
}

/// A string that was written reads back.
pub proof fn written_text_reads_back(text: Seq<char>, rest: Seq<u8>, limit: usize)
    requires
        vstd::utf8::encode_utf8(text).len() <= limit,
    ensures
        text_outcome(framed(vstd::utf8::encode_utf8(text)) + rest, limit) == Ok::<
            Seq<char>,
            DecodeError,
        >(text),
{
    written_field_reads_back(vstd::utf8::encode_utf8(text), rest, limit);
    vstd::utf8::encode_utf8_valid_utf8(text);
    vstd::utf8::encode_utf8_decode_utf8(text);
}

/// The smaller of two lengths.
pub open spec fn least(left: usize, right: usize) -> usize {
    if left < right {
        left
    } else {
        right
    }
}

/// What reading one length-prefixed field gives.
pub open spec fn field_outcome(input: Seq<u8>, limit: usize) -> Result<Seq<u8>, DecodeError> {
    if input.len() < 8 {
        Err(DecodeError::UnexpectedEnd)
    } else {
        let length = bytes::be_value(input.take(8));
        if length > limit {
            Err(DecodeError::FieldTooLarge { actual: length as u64, maximum: limit })
        } else if input.len() - 8 < length {
            Err(DecodeError::UnexpectedEnd)
        } else {
            Ok(input.subrange(8, 8 + length as int))
        }
    }
}

/// A field that was written reads back, with nothing of what follows consumed.
pub proof fn written_field_reads_back(payload: Seq<u8>, rest: Seq<u8>, limit: usize)
    requires
        payload.len() <= limit,
    ensures
        field_outcome(framed(payload) + rest, limit) == Ok::<Seq<u8>, DecodeError>(payload),
        (framed(payload) + rest).skip(8 + payload.len() as int) == rest,
{
    let input = framed(payload) + rest;
    bytes::lemma_byte_powers();
    bytes::lemma_be_bytes_len(payload.len(), 8);
    bytes::lemma_be_round_trip(payload.len(), 8);
    assert(input.take(8) =~= bytes::be_bytes(payload.len(), 8));
    assert(input.subrange(8, 8 + payload.len() as int) =~= payload);
    assert(input.skip(8 + payload.len() as int) =~= rest);
}

/// A field that was read stands framed at the start of the input.
pub proof fn read_field_was_written(input: Seq<u8>, limit: usize, payload: Seq<u8>)
    requires
        field_outcome(input, limit) == Ok::<Seq<u8>, DecodeError>(payload),
    ensures
        input == framed(payload) + input.skip(8 + payload.len() as int),
        payload.len() <= limit,
{
    bytes::lemma_byte_powers();
    bytes::lemma_be_bytes_of_value(input.take(8));
    bytes::lemma_be_bytes_len(payload.len(), 8);
    assert(input =~= input.take(8) + payload + input.skip(8 + payload.len() as int));
    assert(input =~= framed(payload) + input.skip(8 + payload.len() as int));
}

/// A string that was read stands framed at the start of the input.
pub proof fn read_text_was_written(input: Seq<u8>, limit: usize, text: Seq<char>)
    requires
        text_outcome(input, limit) == Ok::<Seq<char>, DecodeError>(text),
    ensures
        input == framed(vstd::utf8::encode_utf8(text)) + input.skip(
            8 + vstd::utf8::encode_utf8(text).len() as int,
        ),
        vstd::utf8::encode_utf8(text).len() <= limit,
{
    let payload = field_outcome(input, limit)->Ok_0;
    read_field_was_written(input, limit, payload);
    vstd::utf8::decode_utf8_encode_utf8(payload);
}

/// A field is read where it keeps both the limit of the call and that of the
/// reader, and refused by the smaller of the two where it does not.
pub proof fn fields_keep_both_limits(
    payload: Seq<u8>,
    rest: Seq<u8>,
    maximum: usize,
    field_limit: usize,
)
    requires
        payload.len() <= u64::MAX,
    ensures
        payload.len() <= maximum && payload.len() <= field_limit <==> field_outcome(
            framed(payload) + rest,
            least(maximum, field_limit),
        ) == Ok::<Seq<u8>, DecodeError>(payload),
        payload.len() > maximum && maximum <= field_limit ==> field_outcome(
            framed(payload) + rest,
            least(maximum, field_limit),
        ) == Err::<Seq<u8>, DecodeError>(
            DecodeError::FieldTooLarge { actual: payload.len() as u64, maximum },
        ),
        payload.len() > field_limit && field_limit <= maximum ==> field_outcome(
            framed(payload) + rest,
            least(maximum, field_limit),
        ) == Err::<Seq<u8>, DecodeError>(
            DecodeError::FieldTooLarge { actual: payload.len() as u64, maximum: field_limit },
        ),
{
    let input = framed(payload) + rest;
    bytes::lemma_byte_powers();
    bytes::lemma_be_bytes_len(payload.len(), 8);
    bytes::lemma_be_round_trip(payload.len(), 8);
    assert(input.take(8) =~= bytes::be_bytes(payload.len(), 8));
    assert(input.subrange(8, 8 + payload.len() as int) =~= payload);
}

/// A field that was cut short is refused as ending early.
pub proof fn cut_fields_end_early(payload: Seq<u8>, kept: int, limit: usize)
    requires
        payload.len() <= limit,
        payload.len() <= u64::MAX,
        0 <= kept < framed(payload).len(),
    ensures
        field_outcome(framed(payload).take(kept), limit) == Err::<Seq<u8>, DecodeError>(
            DecodeError::UnexpectedEnd,
        ),
{
    bytes::lemma_byte_powers();
    bytes::lemma_be_bytes_len(payload.len(), 8);
    bytes::lemma_be_round_trip(payload.len(), 8);
    if kept >= 8 {
        assert(framed(payload).take(kept).take(8) =~= bytes::be_bytes(payload.len(), 8));
    }
}

} // verus!
