//! Fixed-profile multilinear polynomial commitments.
//!
//! This is the reusable commitment boundary for exact validators: shapes,
//! opening statements, strict certificate framing, and commitment accounting.
//! It knows nothing of matrices, right-hand sides, sparse relations, or proof
//! backends. The commitment scheme itself is run by the caller, which hands in
//! what the scheme computed.
//!
//! The only configurable values are the committed table shape: vector length
//! and exact batch size. Neither a proof nor an application caller can
//! substitute weaker parameters than those of [`FIXED_PROFILE`].

use vstd::arithmetic::power2::*;
use vstd::prelude::*;

use crate::binary64;
use crate::binary64::Binary64;
use crate::bytes;
use crate::field::PcsField;
use crate::hashing;

verus! {

pub const SECURITY_BITS: usize = 128;

pub const INITIAL_FOLDING_FACTOR: usize = 4;

pub const FOLDING_FACTOR: usize = 4;

/// Soundness comes from query checks, not a hidden prover cost. This also keeps
/// performance measurements comparable.
pub const MAX_POW_BITS: usize = 0;

pub const FIELD_BYTES: usize = 24;

pub const HASH_BYTES: usize = 32;

/// The first eight bytes of every certificate, as one little-endian integer.
pub const CERTIFICATE_MAGIC: u64 = 0x3130_5343_504d_5353;

pub const CERTIFICATE_VERSION: u16 = 1;

pub const CERTIFICATE_HEADER_BYTES: usize = 26;

/// The session tag that a prover and a verifier bind before the statement.
pub const SESSION_TAG: &'static str = "sparse-solution/mle-pcs/v1";

pub const OPENING_DIGEST_TAG: &'static str = "sparse-solution/mle-pcs/openings/v1\0";

/// Default defensive limit used by [`Certificate::decode_default`].
pub const DEFAULT_MAX_CERTIFICATE_BYTES: usize = 0x1000_0000;

/// Immutable description of the only supported commitment profile.
#[derive(Clone, Copy, Debug, PartialEq, Eq, Structural)]
pub enum FixedProfile {
    UniqueDecodingBlake3,
}

/// The fixed, non-negotiable profile.
pub const FIXED_PROFILE: FixedProfile = FixedProfile::UniqueDecodingBlake3;

impl FixedProfile {
    /// Minimum security required from the computed bound.
    pub fn security_bits(self) -> (bits: usize)
        ensures
            bits == 128,
    {
        SECURITY_BITS
    }

    /// Initial inverse code rate.
    pub fn starting_inverse_rate(self) -> (rate: usize)
        ensures
            rate == 2,
    {
        2
    }

    /// Number of variables folded by the first round.
    pub fn initial_folding_factor(self) -> (factor: usize)
        ensures
            factor == 4,
    {
        INITIAL_FOLDING_FACTOR
    }

    /// Number of variables folded by subsequent rounds.
    pub fn folding_factor(self) -> (factor: usize)
        ensures
            factor == 4,
    {
        FOLDING_FACTOR
    }

    /// Maximum permitted proof-of-work bits.
    pub fn maximum_pow_bits(self) -> (bits: usize)
        ensures
            bits == 0,
    {
        MAX_POW_BITS
    }

    /// Name of the fixed transparent commitment hash.
    pub fn hash_name(self) -> (name: &'static str)
        ensures
            name@ == "blake3"@,
    {
        "blake3"
    }

    /// Whether unique decoding is mandatory.
    pub fn unique_decoding(self) -> (mandatory: bool)
        ensures
            mandatory,
    {
        true
    }
}

/// Why the commitment layer refused a request.
#[derive(Debug, PartialEq, Eq)]
pub enum PcsError {
    /// The vector length is not a power of two.
    VectorLengthNotPowerOfTwo { actual: usize },
    /// The batch size is zero.
    EmptyBatch,
    /// The initial folding factor exceeds the number of variables.
    InitialFoldTooLarge { variables: usize, folding_factor: usize },
    /// The scheme's parameters require more proof of work than is permitted.
    ExcessiveProofOfWork { maximum_bits: usize },
    /// A batch has the wrong number of vectors.
    WrongBatchSize { expected: usize, actual: usize },
    /// A vector has the wrong length.
    WrongVectorLength { index: usize, expected: usize, actual: usize },
    /// No opening point was given.
    NoOpeningPoints,
    /// An opening point has the wrong number of coordinates.
    WrongPointDimension { index: usize, expected: usize, actual: usize },
    /// An opening statement has the wrong number of evaluations.
    WrongEvaluationCount { expected: usize, actual: usize },
    /// The computed security is below what is required.
    InsufficientComputedSecurity { required_bits: usize, computed_bits: Binary64 },
    /// The computed security is no usable number of bits.
    InvalidComputedSecurity { computed_bits: Binary64 },
    /// The application's part of the transcript failed.
    TranscriptHook { message: String },
    /// Opening points or values differ from the transcript-bound statement.
    OpeningStatementDigestMismatch,
    /// The scheme rejected the proof.
    Verification,
    /// A certificate is truncated.
    TruncatedCertificate,
    /// A certificate begins with other bytes.
    BadCertificateMagic,
    /// A certificate has an unknown version.
    UnsupportedCertificateVersion { version: u16 },
    /// Bytes follow a certificate.
    TrailingCertificateBytes { trailing: usize },
    /// A certificate exceeds the configured maximum.
    CertificateTooLarge { maximum: usize, actual: usize },
    /// The scheme's proof could not be reconstructed.
    InternalProofDecode { message: String },
    /// A size does not fit the machine.
    SizeOverflow,
}

/// Whether an integer is a power of two.
pub open spec fn is_power(value: nat) -> bool {
    exists|exponent: nat| value == #[trigger] pow2(exponent)
}

/// The exponent of a power of two.
pub open spec fn exponent_of(value: nat) -> nat {
    choose|exponent: nat| value == #[trigger] pow2(exponent)
}

proof fn lemma_exponent_is_unique(value: nat, exponent: nat)
    requires
        value == pow2(exponent),
    ensures
        is_power(value),
        exponent_of(value) == exponent,
{
    let found = exponent_of(value);
    assert(value == pow2(found));
    if found < exponent {
        lemma_pow2_strictly_increases(found, exponent);
    }
    if exponent < found {
        lemma_pow2_strictly_increases(exponent, found);
    }
}

/// The exponent of a power of two, by repeated halving.
fn binary_exponent(value: usize) -> (exponent: Option<usize>)
    ensures
        (match exponent {
            Some(found) => is_power(value as nat) && found == exponent_of(value as nat) && found
                < 64,
            None => !is_power(value as nat),
        }),
{
    proof {
        lemma2_to64();
    }
    if value == 0 {
        assert(!is_power(0)) by {
            assert forall|exponent: nat| 0 != #[trigger] pow2(exponent) by {
                lemma_pow2_pos(exponent);
            }
        }
        return None;
    }
    let mut rest: usize = value;
    let mut exponent: usize = 0;
    assert(pow2(0) * rest == value);
    while rest % 2 == 0
        invariant
            0 < rest,
            exponent < 64,
            pow2(exponent as nat) * rest == value,
            value <= 0xffff_ffff_ffff_ffff,
        decreases rest,
    {
        let half: usize = rest / 2;
        proof {
            lemma_pow2_unfold((exponent + 1) as nat);
            lemma_pow2_pos(exponent as nat);
            let scale = pow2(exponent as nat);
            assert(2 * scale * half == value) by (nonlinear_arith)
                requires
                    scale * rest == value,
                    rest == 2 * half,
            ;
            if exponent + 1 >= 64 {
                lemma2_to64();
                if exponent + 1 > 64 {
                    lemma_pow2_strictly_increases(64, (exponent + 1) as nat);
                }
                assert(2 * scale * half >= 2 * scale) by (nonlinear_arith)
                    requires
                        half >= 1,
                        scale > 0,
                ;
            }
        }
        rest = half;
        exponent = exponent + 1;
    }
    if rest == 1 {
        proof {
            lemma_exponent_is_unique(value as nat, exponent as nat);
        }
        Some(exponent)
    } else {
        proof {
            lemma_odd_factor(value as nat, exponent as nat, rest as nat);
        }
        None
    }
}

/// A power of two has no odd factor above one.
proof fn lemma_odd_factor(value: nat, exponent: nat, odd: nat)
    requires
        value == pow2(exponent) * odd,
        odd % 2 == 1,
        odd > 1,
    ensures
        !is_power(value),
{
    if is_power(value) {
        let found = exponent_of(value);
        lemma_pow2_pos(exponent);
        if found <= exponent {
            if found < exponent {
                lemma_pow2_strictly_increases(found, exponent);
            }
            assert(pow2(exponent) * odd > pow2(exponent)) by (nonlinear_arith)
                requires
                    odd > 1,
                    pow2(exponent) > 0,
            ;
        } else {
            let extra = (found - exponent) as nat;
            lemma_pow2_adds(exponent, extra);
            lemma_pow2_unfold(extra);
            assert(odd == pow2(extra)) by (nonlinear_arith)
                requires
                    pow2(exponent) * odd == pow2(exponent) * pow2(extra),
                    pow2(exponent) > 0,
            ;
            assert(pow2(extra) == 2 * pow2((extra - 1) as nat));
        }
    }
}

/// The refusal of a table shape, if any.
pub open spec fn shape_error(vector_len: usize, batch_size: usize) -> Option<PcsError> {
    if !is_power(vector_len as nat) {
        Some(PcsError::VectorLengthNotPowerOfTwo { actual: vector_len })
    } else if batch_size == 0 {
        Some(PcsError::EmptyBatch)
    } else if exponent_of(vector_len as nat) < INITIAL_FOLDING_FACTOR {
        Some(
            PcsError::InitialFoldTooLarge {
                variables: exponent_of(vector_len as nat) as usize,
                folding_factor: INITIAL_FOLDING_FACTOR,
            },
        )
    } else {
        None
    }
}

/// Accepts a table shape.
pub fn validate_shape(vector_len: usize, batch_size: usize) -> (result: Result<(), PcsError>)
    ensures
        (match shape_error(vector_len, batch_size) {
            Some(refused) => result matches Err(error) && error == refused,
            None => result is Ok,
        }),
{
    let variables: usize = match binary_exponent(vector_len) {
        Some(variables) => variables,
        None => {
            return Err(PcsError::VectorLengthNotPowerOfTwo { actual: vector_len });
        },
    };
    if batch_size == 0 {
        return Err(PcsError::EmptyBatch);
    }
    if variables < INITIAL_FOLDING_FACTOR {
        return Err(
            PcsError::InitialFoldTooLarge { variables, folding_factor: INITIAL_FOLDING_FACTOR },
        );
    }
    Ok(())
}

/// What a computed security level promises: whole bits, at least those of the
/// profile.
pub open spec fn security_outcome(computed: Binary64) -> Result<u32, PcsError> {
    let bits = computed@;
    let whole = binary64::unit_magnitude(bits) / pow2(1074);
    if !binary64::finite(bits) || binary64::negative(bits) || whole < SECURITY_BITS {
        Err(
            PcsError::InsufficientComputedSecurity {
                required_bits: SECURITY_BITS,
                computed_bits: computed,
            },
        )
    } else if whole > u32::MAX {
        Err(PcsError::InvalidComputedSecurity { computed_bits: computed })
    } else {
        Ok(whole as u32)
    }
}

/// The whole part of a nonnegative finite binary64, as far as 32 bits hold it.
proof fn lemma_whole_part(bits: u64)
    requires
        binary64::finite(bits),
        !binary64::negative(bits),
    ensures
        ({
            let exponent = binary64::exponent_field(bits);
            let significand = binary64::IMPLICIT_BIT + binary64::fraction_field(bits);
            let whole = binary64::unit_magnitude(bits) / pow2(1074);
            &&& exponent < 1030 ==> whole < 128
            &&& exponent >= 1055 ==> whole > u32::MAX
            &&& 1030 <= exponent < 1055 ==> whole == significand / (pow2(
                (1075 - exponent) as nat,
            ) as int) && 128 <= whole <= u32::MAX
        }),
{
    let exponent = binary64::exponent_field(bits);
    let significand = binary64::IMPLICIT_BIT + binary64::fraction_field(bits);
    let units = binary64::unit_magnitude(bits) as int;
    let unit = pow2(1074) as int;
    lemma2_to64();
    lemma2_to64_rest();
    lemma_pow2_pos(1074);
    if exponent == 0 {
        lemma_pow2_strictly_increases(63, 1074);
        vstd::arithmetic::div_mod::lemma_basic_div(units, unit);
    } else if exponent < 1075 {
        let scale = pow2((exponent - 1) as nat) as int;
        let right = (1075 - exponent) as nat;
        let divisor = pow2(right) as int;
        lemma_pow2_adds((exponent - 1) as nat, right);
        lemma_pow2_pos((exponent - 1) as nat);
        lemma_pow2_pos(right);
        assert(units == scale * significand) by (nonlinear_arith)
            requires
                units == significand * scale,
        ;
        vstd::arithmetic::div_mod::lemma_truncate_middle(significand, scale, divisor);
        vstd::arithmetic::div_mod::lemma_div_multiples_vanish_quotient(scale, significand, divisor);
        assert(units / unit == significand / divisor);
        if exponent < 1030 {
            if right > 46 {
                lemma_pow2_strictly_increases(46, right);
            }
            vstd::arithmetic::div_mod::lemma_div_is_ordered_by_denominator(
                significand,
                pow2(46) as int,
                divisor,
            );
            assert(significand / (pow2(46) as int) < 128);
        } else if exponent >= 1055 {
            if right < 20 {
                lemma_pow2_strictly_increases(right, 20);
            }
            vstd::arithmetic::div_mod::lemma_div_is_ordered_by_denominator(
                significand,
                divisor,
                pow2(20) as int,
            );
            assert(significand / (pow2(20) as int) > u32::MAX);
        } else {
            if right < 45 {
                lemma_pow2_strictly_increases(right, 45);
            }
            if right > 21 {
                lemma_pow2_strictly_increases(21, right);
            }
            vstd::arithmetic::div_mod::lemma_div_is_ordered_by_denominator(
                significand,
                pow2(21) as int,
                divisor,
            );
            vstd::arithmetic::div_mod::lemma_div_is_ordered_by_denominator(
                significand,
                divisor,
                pow2(45) as int,
            );
            assert(significand / (pow2(21) as int) <= u32::MAX);
            assert(significand / (pow2(45) as int) >= 128);
        }
    } else {
        let left = (exponent - 1075) as nat;
        let scale = pow2(left) as int;
        lemma_pow2_adds(left, 1074);
        lemma_pow2_pos(left);
        assert(units == (significand * scale) * unit) by (nonlinear_arith)
            requires
                units == significand * (scale * unit),
        ;
        vstd::arithmetic::div_mod::lemma_div_multiples_vanish(significand * scale, unit);
        vstd::arithmetic::mul::lemma_mul_is_commutative(significand * scale, unit);
        assert(significand * scale >= significand) by (nonlinear_arith)
            requires
                scale >= 1,
                significand >= 0,
        ;
    }
}

pub(crate) fn security_bits_floor(computed: Binary64) -> (result: Result<u32, PcsError>)
    ensures
        result == security_outcome(computed),
{
    if !computed.is_finite() || computed.is_sign_negative() {
        return Err(
            PcsError::InsufficientComputedSecurity {
                required_bits: SECURITY_BITS,
                computed_bits: computed,
            },
        );
    }
    let bits: u64 = computed.to_bits();
    let exponent: u64 = bits / binary64::IMPLICIT_BIT;
    let significand: u64 = binary64::IMPLICIT_BIT + bits % binary64::IMPLICIT_BIT;
    proof {
        lemma_whole_part(bits);
        assert(exponent < 2048);
        assert(exponent == binary64::exponent_field(bits));
    }
    if exponent < 1030 {
        return Err(
            PcsError::InsufficientComputedSecurity {
                required_bits: SECURITY_BITS,
                computed_bits: computed,
            },
        );
    }
    if exponent >= 1055 {
        return Err(PcsError::InvalidComputedSecurity { computed_bits: computed });
    }
    let mut divisor: u64 = 1;
    let mut doublings: u64 = 0;
    proof {
        lemma2_to64();
        lemma2_to64_rest();
    }
    while doublings < 1075 - exponent
        invariant
            1030 <= exponent < 1055,
            doublings <= 1075 - exponent,
            divisor == pow2(doublings as nat),
            pow2(45) == 0x2000_0000_0000,
        decreases 1075 - exponent - doublings,
    {
        proof {
            lemma_pow2_unfold((doublings + 1) as nat);
            lemma_pow2_strictly_increases(doublings as nat, 45);
        }
        divisor = divisor * 2;
        doublings = doublings + 1;
    }
    proof {
        lemma_pow2_pos((1075 - exponent) as nat);
    }
    Ok((significand / divisor) as u32)
}

/// What an opening statement says: points and claimed values, by canonical
/// representatives.
#[verifier::ext_equal]
pub struct ClaimsModel {
    pub points: Seq<Seq<nat>>,
    pub evaluations: Seq<nat>,
}

/// The representatives of field elements.
pub open spec fn values(elements: Seq<PcsField>) -> Seq<nat> {
    elements.map_values(|element: PcsField| element@)
}

/// The representatives of vectors of field elements.
pub open spec fn tables(vectors: Seq<Vec<PcsField>>) -> Seq<Seq<nat>> {
    vectors.map_values(|vector: Vec<PcsField>| values(vector@))
}

/// Public opening statement.
///
/// Evaluations are row-major:
/// `evaluations[point_index * batch_size + vector_index]`.
#[derive(Debug, PartialEq, Eq)]
pub struct OpeningClaims {
    pub points: Vec<Vec<PcsField>>,
    pub evaluations: Vec<PcsField>,
}

impl View for OpeningClaims {
    type V = ClaimsModel;

    open spec fn view(&self) -> ClaimsModel {
        ClaimsModel { points: tables(self.points@), evaluations: values(self.evaluations@) }
    }
}

fn copy_elements(elements: &[PcsField]) -> (copy: Vec<PcsField>)
    ensures
        copy@ == elements@,
{
    vstd::slice::slice_to_vec(elements)
}

impl Clone for OpeningClaims {
    fn clone(&self) -> (copy: Self)
        ensures
            copy@ == self@,
    {
        let mut points: Vec<Vec<PcsField>> = Vec::new();
        let mut index: usize = 0;
        while index < self.points.len()
            invariant
                index == points@.len() <= self.points@.len(),
                forall|i: int| 0 <= i < index ==> (#[trigger] points@[i])@ == self.points@[i]@,
            decreases self.points@.len() - index,
        {
            points.push(copy_elements(self.points[index].as_slice()));
            index = index + 1;
        }
        let copy = OpeningClaims {
            points,
            evaluations: copy_elements(self.evaluations.as_slice()),
        };
        assert(copy@.points =~= self@.points);
        copy
    }
}

impl OpeningClaims {
    /// Returns one claimed evaluation using the documented row-major layout.
    pub fn evaluation(&self, point: usize, vector: usize, batch_size: usize) -> (value: Option<
        PcsField,
    >)
        ensures
            (match value {
                Some(found) => {
                    &&& point * batch_size + vector < self@.evaluations.len()
                    &&& found@ == self@.evaluations[point * batch_size + vector]
                },
                None => point * batch_size + vector >= self@.evaluations.len(),
            }),
    {
        let length: usize = self.evaluations.len();
        let offset: usize = match point.checked_mul(batch_size) {
            Some(offset) => offset,
            None => {
                return None;
            },
        };
        let index: usize = match offset.checked_add(vector) {
            Some(index) => index,
            None => {
                return None;
            },
        };
        if index < length {
            Some(self.evaluations[index])
        } else {
            None
        }
    }
}

/// Field elements one after another, each as 24 little-endian bytes, from a
/// position on.
pub open spec fn elements_from(elements: Seq<nat>, position: nat) -> Seq<u8>
    decreases elements.len() - position,
{
    if position >= elements.len() {
        Seq::empty()
    } else {
        bytes::le_bytes(elements[position as int], 24) + elements_from(elements, position + 1)
    }
}

/// Field elements behind their count.
pub open spec fn list_bytes(elements: Seq<nat>) -> Seq<u8> {
    bytes::le_bytes(elements.len(), 8) + elements_from(elements, 0)
}

/// Opening points one after another, from a position on.
pub open spec fn points_from(points: Seq<Seq<nat>>, position: nat) -> Seq<u8>
    decreases points.len() - position,
{
    if position >= points.len() {
        Seq::empty()
    } else {
        list_bytes(points[position as int]) + points_from(points, position + 1)
    }
}

/// The bytes whose digest binds an opening statement.
pub open spec fn opening_bytes(
    vector_len: usize,
    batch_size: usize,
    claims: ClaimsModel,
) -> Seq<u8> {
    vstd::utf8::encode_utf8(OPENING_DIGEST_TAG@) + bytes::le_bytes(vector_len as nat, 8)
        + bytes::le_bytes(batch_size as nat, 8) + bytes::le_bytes(claims.points.len(), 8)
        + points_from(claims.points, 0) + list_bytes(claims.evaluations)
}

/// The digest that binds an opening statement.
pub open spec fn opening_digest(
    vector_len: usize,
    batch_size: usize,
    claims: ClaimsModel,
) -> Seq<u8> {
    hashing::blake3_digest(opening_bytes(vector_len, batch_size, claims))
}

fn append_list(output: &mut Vec<u8>, elements: &[PcsField])
    ensures
        final(output)@ == old(output)@ + list_bytes(values(elements@)),
{
    let ghost listed = values(elements@);
    let ghost start = output@;
    bytes::append_le(output, elements.len() as u128, 8);
    let mut index: usize = 0;
    assert(output@ + elements_from(listed, 0) =~= start + list_bytes(listed));
    while index < elements.len()
        invariant
            index <= elements@.len(),
            listed == values(elements@),
            output@ + elements_from(listed, index as nat) == start + list_bytes(listed),
        decreases elements@.len() - index,
    {
        let ghost before = output@;
        let element = elements[index];
        element.append_to(output);
        proof {
            assert(listed[index as int] == element@);
            assert(before + (bytes::le_bytes(element@, 24) + elements_from(
                listed,
                (index + 1) as nat,
            )) =~= output@ + elements_from(listed, (index + 1) as nat));
        }
        index = index + 1;
    }
    assert(output@ =~= output@ + elements_from(listed, index as nat));
}

fn opening_statement_digest(vector_len: usize, batch_size: usize, claims: &OpeningClaims) -> (
digest: [u8; 32])
    ensures
        digest@ == opening_digest(vector_len, batch_size, claims@),
{
    let ghost points = claims@.points;
    let mut output = bytes::copy_bytes(OPENING_DIGEST_TAG.as_bytes());
    bytes::append_le(&mut output, vector_len as u128, 8);
    bytes::append_le(&mut output, batch_size as u128, 8);
    bytes::append_le(&mut output, claims.points.len() as u128, 8);
    let ghost header = output@;
    let mut index: usize = 0;
    assert(output@ + points_from(points, 0) == header + points_from(points, 0));
    while index < claims.points.len()
        invariant
            index <= claims.points@.len(),
            points == claims@.points,
            output@ + points_from(points, index as nat) == header + points_from(points, 0),
        decreases claims.points@.len() - index,
    {
        let ghost before = output@;
        append_list(&mut output, claims.points[index].as_slice());
        proof {
            assert(points[index as int] == values(claims.points@[index as int]@));
            assert(before + (list_bytes(points[index as int]) + points_from(
                points,
                (index + 1) as nat,
            )) =~= output@ + points_from(points, (index + 1) as nat));
        }
        index = index + 1;
    }
    assert(output@ =~= output@ + points_from(points, index as nat));
    append_list(&mut output, claims.evaluations.as_slice());
    assert(output@ =~= opening_bytes(vector_len, batch_size, claims@));
    hashing::blake3_hash(output.as_slice())
}

/// The refusal of opening points, if any: there is one, and each has as many
/// coordinates as a vector has variables.
pub open spec fn points_error(points: Seq<Seq<nat>>, variables: nat, count: nat) -> Option<PcsError>
    decreases count,
{
    if count == 0 {
        None
    } else {
        match points_error(points, variables, (count - 1) as nat) {
            Some(error) => Some(error),
            None => if points[count - 1].len() != variables {
                Some(
                    PcsError::WrongPointDimension {
                        index: (count - 1) as usize,
                        expected: variables as usize,
                        actual: points[count - 1].len() as usize,
                    },
                )
            } else {
                None
            },
        }
    }
}

/// The refusal of a batch of vectors, if any: it is as long as configured, and
/// so is every vector.
pub open spec fn lengths_error(vectors: Seq<Seq<nat>>, vector_len: usize, count: nat) -> Option<
    PcsError,
>
    decreases count,
{
    if count == 0 {
        None
    } else {
        match lengths_error(vectors, vector_len, (count - 1) as nat) {
            Some(error) => Some(error),
            None => if vectors[count - 1].len() != vector_len {
                Some(
                    PcsError::WrongVectorLength {
                        index: (count - 1) as usize,
                        expected: vector_len,
                        actual: vectors[count - 1].len() as usize,
                    },
                )
            } else {
                None
            },
        }
    }
}

/// A commitment scheme for a batch of vectors of one length.
///
/// Construction accepts only shape information. There is intentionally no
/// public configuration object and no security-parameter setter.
#[derive(Debug)]
pub struct PcsProtocol {
    vector_len: usize,
    batch_size: usize,
    variables: usize,
}

impl Clone for PcsProtocol {
    fn clone(&self) -> (copy: Self)
        ensures
            copy.length() == self.length(),
            copy.batch() == self.batch(),
    {
        proof {
            use_type_invariant(self);
        }
        PcsProtocol {
            vector_len: self.vector_len,
            batch_size: self.batch_size,
            variables: self.variables,
        }
    }
}

/// The refusal of a scheme for a shape, if any, given what the scheme computed:
/// whether it needs no more proof of work than permitted, and its security for
/// one opening.
pub open spec fn protocol_error(
    vector_len: usize,
    batch_size: usize,
    within_pow_limit: bool,
    computed_security: Binary64,
) -> Option<PcsError> {
    if shape_error(vector_len, batch_size) is Some {
        shape_error(vector_len, batch_size)
    } else if !within_pow_limit {
        Some(PcsError::ExcessiveProofOfWork { maximum_bits: MAX_POW_BITS })
    } else {
        match security_outcome(computed_security) {
            Err(error) => Some(error),
            Ok(_) => None,
        }
    }
}

/// The refusal of opening points, if any, given the computed security of their
/// number.
pub open spec fn openings_error(
    variables: nat,
    points: Seq<Seq<nat>>,
    computed_security: Binary64,
) -> Option<PcsError> {
    if points.len() == 0 {
        Some(PcsError::NoOpeningPoints)
    } else if let Some(error) = points_error(points, variables, points.len()) {
        Some(error)
    } else if let Err(error) = security_outcome(computed_security) {
        Some(error)
    } else {
        None
    }
}

/// The refusal of an opening statement, if any, given the computed security of
/// its number of points.
pub open spec fn claims_error(
    variables: nat,
    batch_size: usize,
    claims: ClaimsModel,
    computed_security: Binary64,
) -> Option<PcsError> {
    let expected = claims.points.len() * batch_size;
    if let Some(error) = openings_error(variables, claims.points, computed_security) {
        Some(error)
    } else if expected > usize::MAX {
        Some(PcsError::SizeOverflow)
    } else if claims.evaluations.len() != expected {
        Some(
            PcsError::WrongEvaluationCount {
                expected: expected as usize,
                actual: claims.evaluations.len() as usize,
            },
        )
    } else {
        None
    }
}

impl PcsProtocol {
    #[verifier::type_invariant]
    spec fn inv(self) -> bool {
        &&& shape_error(self.vector_len, self.batch_size) is None
        &&& self.variables == exponent_of(self.vector_len as nat)
        &&& self.variables < 64
    }

    /// Number of elements in every committed vector.
    pub closed spec fn length(&self) -> usize {
        self.vector_len
    }

    /// Exact number of committed vectors.
    pub closed spec fn batch(&self) -> usize {
        self.batch_size
    }

    /// Constructs the fixed-profile scheme for `batch_size` vectors of exactly
    /// `vector_len` elements each, given what the scheme computed for that
    /// shape under the fixed profile. The batch size is exact; proof and
    /// verification reject any other count.
    pub fn new(
        vector_len: usize,
        batch_size: usize,
        within_pow_limit: bool,
        computed_security: Binary64,
    ) -> (result: Result<PcsProtocol, PcsError>)
        ensures
            (match protocol_error(vector_len, batch_size, within_pow_limit, computed_security) {
                Some(refused) => result matches Err(error) && error == refused,
                None => result matches Ok(protocol) && protocol.length() == vector_len
                    && protocol.batch() == batch_size,
            }),
    {
        if let Err(error) = validate_shape(vector_len, batch_size) {
            return Err(error);
        }
        if !within_pow_limit {
            return Err(PcsError::ExcessiveProofOfWork { maximum_bits: MAX_POW_BITS });
        }
        // Construction fails if even one opening cannot meet the promised
        // profile. Exact opening counts are checked again per proof.
        if let Err(error) = security_bits_floor(computed_security) {
            return Err(error);
        }
        match binary_exponent(vector_len) {
            Some(variables) => Ok(PcsProtocol { vector_len, batch_size, variables }),
            None => Err(PcsError::VectorLengthNotPowerOfTwo { actual: vector_len }),
        }
    }

    /// Number of elements in every committed vector.
    pub fn vector_len(&self) -> (length: usize)
        ensures
            length == self.length(),
            shape_error(self.length(), self.batch()) is None,
    {
        proof {
            use_type_invariant(self);
        }
        self.vector_len
    }

    /// Exact number of committed vectors.
    pub fn batch_size(&self) -> (size: usize)
        ensures
            size == self.batch(),
            0 < size,
    {
        proof {
            use_type_invariant(self);
        }
        self.batch_size
    }

    /// Number of Boolean variables in one vector's multilinear extension.
    pub fn variables(&self) -> (variables: usize)
        ensures
            variables == exponent_of(self.length() as nat),
            self.length() == pow2(variables as nat),
    {
        proof {
            use_type_invariant(self);
        }
        self.variables
    }

    /// Accepts a batch to commit to.
    pub fn validate_vectors(&self, vectors: &[Vec<PcsField>]) -> (result: Result<(), PcsError>)
        ensures
            (if vectors@.len() != self.batch() {
                result matches Err(error) && error == (PcsError::WrongBatchSize {
                    expected: self.batch(),
                    actual: vectors@.len() as usize,
                })
            } else {
                match lengths_error(tables(vectors@), self.length(), vectors@.len()) {
                    Some(refused) => result matches Err(error) && error == refused,
                    None => result is Ok,
                }
            }),
            result is Ok ==> forall|i: int|
                0 <= i < vectors@.len() ==> (#[trigger] vectors@[i])@.len() == self.length(),
    {
        if vectors.len() != self.batch_size {
            return Err(
                PcsError::WrongBatchSize { expected: self.batch_size, actual: vectors.len() },
            );
        }
        let ghost all = tables(vectors@);
        let mut index: usize = 0;
        while index < vectors.len()
            invariant
                index <= vectors@.len(),
                vectors@.len() == self.batch_size,
                all == tables(vectors@),
                lengths_error(all, self.vector_len, index as nat) is None,
                forall|i: int|
                    0 <= i < index ==> (#[trigger] vectors@[i])@.len() == self.vector_len,
            decreases vectors@.len() - index,
        {
            let actual: usize = vectors[index].len();
            assert(all[index as int].len() == actual);
            if actual != self.vector_len {
                proof {
                    lemma_lengths_error_stays(
                        all,
                        self.vector_len,
                        (index + 1) as nat,
                        vectors@.len(),
                    );
                }
                return Err(
                    PcsError::WrongVectorLength { index, expected: self.vector_len, actual },
                );
            }
            index = index + 1;
        }
        Ok(())
    }

    /// Accepts opening points.
    pub fn validate_points(&self, points: &[Vec<PcsField>], computed_security: Binary64) -> (
    result: Result<(), PcsError>)
        ensures
            (match openings_error(
                exponent_of(self.length() as nat),
                tables(points@),
                computed_security,
            ) {
                Some(refused) => result matches Err(error) && error == refused,
                None => result is Ok,
            }),
    {
        proof {
            use_type_invariant(self);
        }
        if points.len() == 0 {
            return Err(PcsError::NoOpeningPoints);
        }
        let expected: usize = self.variables();
        let ghost all = tables(points@);
        let mut index: usize = 0;
        while index < points.len()
            invariant
                index <= points@.len(),
                all == tables(points@),
                points_error(all, expected as nat, index as nat) is None,
                expected == exponent_of(self.length() as nat),
            decreases points@.len() - index,
        {
            let actual: usize = points[index].len();
            assert(all[index as int].len() == actual);
            if actual != expected {
                proof {
                    lemma_points_error_stays(
                        all,
                        expected as nat,
                        (index + 1) as nat,
                        points@.len(),
                    );
                }
                return Err(PcsError::WrongPointDimension { index, expected, actual });
            }
            index = index + 1;
        }
        match security_bits_floor(computed_security) {
            Ok(_) => Ok(()),
            Err(error) => Err(error),
        }
    }

    /// Accepts an opening statement.
    pub fn validate_claims(&self, claims: &OpeningClaims, computed_security: Binary64) -> (result:
        Result<(), PcsError>)
        ensures
            (match claims_error(
                exponent_of(self.length() as nat),
                self.batch(),
                claims@,
                computed_security,
            ) {
                Some(refused) => result matches Err(error) && error == refused,
                None => result is Ok,
            }),
    {
        if let Err(error) = self.validate_points(claims.points.as_slice(), computed_security) {
            return Err(error);
        }
        let expected: usize = match claims.points.len().checked_mul(self.batch_size) {
            Some(expected) => expected,
            None => {
                return Err(PcsError::SizeOverflow);
            },
        };
        if claims.evaluations.len() != expected {
            return Err(
                PcsError::WrongEvaluationCount { expected, actual: claims.evaluations.len() },
            );
        }
        Ok(())
    }

    /// The digest that binds an opening statement into the transcript.
    pub(crate) fn opening_digest(&self, claims: &OpeningClaims) -> (digest: [u8; 32])
        ensures
            digest@ == opening_digest(self.length(), self.batch(), claims@),
    {
        opening_statement_digest(self.vector_len, self.batch_size, claims)
    }

    /// Accepts an opening statement and gives the digest that binds it into the
    /// transcript.
    pub fn bind_openings(&self, claims: &OpeningClaims, computed_security: Binary64) -> (result:
        Result<[u8; 32], PcsError>)
        ensures
            (match claims_error(
                exponent_of(self.length() as nat),
                self.batch(),
                claims@,
                computed_security,
            ) {
                Some(refused) => result matches Err(error) && error == refused,
                None => result matches Ok(digest) && digest@ == opening_digest(
                    self.length(),
                    self.batch(),
                    claims@,
                ),
            }),
    {
        if let Err(error) = self.validate_claims(claims, computed_security) {
            return Err(error);
        }
        Ok(self.opening_digest(claims))
    }

    /// Evaluates every vector at every point, in the documented order, by the
    /// scheme's own evaluation.
    pub fn evaluate_claims<F: Fn(&[PcsField], &[PcsField]) -> PcsField>(
        &self,
        vectors: &[Vec<PcsField>],
        points: Vec<Vec<PcsField>>,
        computed_security: Binary64,
        evaluate: F,
    ) -> (result: Result<OpeningClaims, PcsError>)
        requires
            forall|point: &[PcsField], vector: &[PcsField]| #[trigger]
                call_requires(evaluate, (point, vector)),
        ensures
            (match openings_error(
                exponent_of(self.length() as nat),
                tables(points@),
                computed_security,
            ) {
                Some(refused) => result matches Err(error) && error == refused,
                None => {
                    &&& points@.len() * vectors@.len() > usize::MAX ==> (result matches Err(error)
                        && error == PcsError::SizeOverflow)
                    &&& points@.len() * vectors@.len() <= usize::MAX ==> {
                        &&& result matches Ok(claims)
                        &&& claims.points == points
                        &&& evaluates(
                            evaluate,
                            vectors@,
                            points@,
                            claims.evaluations@,
                            (points@.len() * vectors@.len()) as int,
                        )
                    }
                },
            }),
    {
        if let Err(error) = self.validate_points(points.as_slice(), computed_security) {
            return Err(error);
        }
        if points.len().checked_mul(vectors.len()).is_none() {
            return Err(PcsError::SizeOverflow);
        }
        let mut evaluations: Vec<PcsField> = Vec::new();
        let mut row: usize = 0;
        assert(0 * vectors@.len() == 0) by (nonlinear_arith);
        while row < points.len()
            invariant
                row <= points@.len(),
                points@.len() * vectors@.len() <= usize::MAX,
                forall|point: &[PcsField], vector: &[PcsField]| #[trigger]
                    call_requires(evaluate, (point, vector)),
                evaluates(evaluate, vectors@, points@, evaluations@, row * vectors@.len()),
            decreases points@.len() - row,
        {
            let mut column: usize = 0;
            while column < vectors.len()
                invariant
                    row < points@.len(),
                    column <= vectors@.len(),
                    forall|point: &[PcsField], vector: &[PcsField]| #[trigger]
                        call_requires(evaluate, (point, vector)),
                    evaluates(
                        evaluate,
                        vectors@,
                        points@,
                        evaluations@,
                        row * vectors@.len() + column,
                    ),
                decreases vectors@.len() - column,
            {
                let value = evaluate(points[row].as_slice(), vectors[column].as_slice());
                proof {
                    let position = row * vectors@.len() + column;
                    vstd::arithmetic::div_mod::lemma_fundamental_div_mod_converse(
                        position,
                        vectors@.len() as int,
                        row as int,
                        column as int,
                    );
                }
                evaluations.push(value);
                column = column + 1;
            }
            assert(row * vectors@.len() + vectors@.len() == (row + 1) * vectors@.len())
                by (nonlinear_arith);
            row = row + 1;
        }
        Ok(OpeningClaims { points, evaluations })
    }
}

/// Whether values are those of the vectors at the points in row-major order,
/// for a number of leading positions.
pub open spec fn evaluates<F: Fn(&[PcsField], &[PcsField]) -> PcsField>(
    evaluate: F,
    vectors: Seq<Vec<PcsField>>,
    points: Seq<Vec<PcsField>>,
    evaluations: Seq<PcsField>,
    count: int,
) -> bool {
    &&& evaluations.len() == count
    &&& forall|position: int|
        0 <= position < count ==> evaluated(
            evaluate,
            points[position / vectors.len() as int],
            vectors[position % vectors.len() as int],
            #[trigger] evaluations[position],
        )
}

/// Whether the scheme's evaluation of a vector at a point may give a value.
pub open spec fn evaluated<F: Fn(&[PcsField], &[PcsField]) -> PcsField>(
    evaluate: F,
    point: Vec<PcsField>,
    vector: Vec<PcsField>,
    value: PcsField,
) -> bool {
    exists|at: &[PcsField], table: &[PcsField]|
        at@ == point@ && table@ == vector@ && #[trigger] call_ensures(evaluate, (at, table), value)
}

proof fn lemma_lengths_error_stays(
    vectors: Seq<Seq<nat>>,
    vector_len: usize,
    fewer: nat,
    count: nat,
)
    requires
        fewer <= count,
        lengths_error(vectors, vector_len, fewer) is Some,
    ensures
        lengths_error(vectors, vector_len, count) == lengths_error(vectors, vector_len, fewer),
    decreases count,
{
    if fewer < count {
        lemma_lengths_error_stays(vectors, vector_len, fewer, (count - 1) as nat);
    }
}

proof fn lemma_points_error_stays(
    points: Seq<Seq<nat>>,
    variables: nat,
    fewer: nat,
    count: nat,
)
    requires
        fewer <= count,
        points_error(points, variables, fewer) is Some,
    ensures
        points_error(points, variables, count) == points_error(points, variables, fewer),
    decreases count,
{
    if fewer < count {
        lemma_points_error_stays(points, variables, fewer, (count - 1) as nat);
    }
}

} // verus!
