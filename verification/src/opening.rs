//! Opening proofs: their strict wire form, and what the commitment layer makes
//! of what the scheme computed.
//!
//! The transcript order, which the runs of [`crate::transcript`] keep, is: bind
//! the fixed profile and the public statement digest; commit to the batch; run
//! an optional caller-supplied part; bind the digest of every opening point and
//! claimed value; prove all openings; verify the deferred final claim and
//! require the end of the proof.

use vstd::prelude::*;

use crate::binary64::Binary64;
use crate::bytes;
use crate::field::PcsField;
use crate::pcs;
use crate::pcs::{
    ClaimsModel, OpeningClaims, PcsError, PcsProtocol, CERTIFICATE_HEADER_BYTES,
    CERTIFICATE_MAGIC, CERTIFICATE_VERSION, DEFAULT_MAX_CERTIFICATE_BYTES, FIELD_BYTES, HASH_BYTES,
};

verus! {

/// Strict wire wrapper for the scheme's two proof byte streams.
///
/// Encoding is fixed-width little-endian:
/// `magic || version || narg_len || hints_len || narg || hints`.
#[derive(Debug, PartialEq, Eq)]
pub struct Certificate {
    narg_string: Vec<u8>,
    hints: Vec<u8>,
}

/// What a certificate carries.
#[verifier::ext_equal]
pub struct StreamsModel {
    pub narg_string: Seq<u8>,
    pub hints: Seq<u8>,
}

impl View for Certificate {
    type V = StreamsModel;

    closed spec fn view(&self) -> StreamsModel {
        StreamsModel { narg_string: self.narg_string@, hints: self.hints@ }
    }
}

impl Clone for Certificate {
    fn clone(&self) -> (copy: Self)
        ensures
            copy@ == self@,
    {
        Certificate {
            narg_string: bytes::copy_bytes(self.narg_string.as_slice()),
            hints: bytes::copy_bytes(self.hints.as_slice()),
        }
    }
}

/// The length of an encoded certificate.
pub open spec fn certificate_length(streams: StreamsModel) -> int {
    (CERTIFICATE_HEADER_BYTES + streams.narg_string.len() + streams.hints.len()) as int
}

/// The bytes of a certificate.
pub open spec fn certificate_bytes(streams: StreamsModel) -> Seq<u8> {
    bytes::le_bytes(CERTIFICATE_MAGIC as nat, 8) + bytes::le_bytes(CERTIFICATE_VERSION as nat, 2)
        + bytes::le_bytes(streams.narg_string.len(), 8) + bytes::le_bytes(streams.hints.len(), 8)
        + streams.narg_string + streams.hints
}

/// What decoding a certificate gives.
pub open spec fn certificate_outcome(encoded: Seq<u8>, maximum: usize) -> Result<
    StreamsModel,
    PcsError,
> {
    let version = bytes::le_value(encoded.subrange(8, 10));
    let narg = bytes::le_value(encoded.subrange(10, 18));
    let hints = bytes::le_value(encoded.subrange(18, 26));
    let total = (CERTIFICATE_HEADER_BYTES + narg + hints) as int;
    if encoded.len() < CERTIFICATE_HEADER_BYTES {
        Err(PcsError::TruncatedCertificate)
    } else if bytes::le_value(encoded.subrange(0, 8)) != CERTIFICATE_MAGIC {
        Err(PcsError::BadCertificateMagic)
    } else if version != CERTIFICATE_VERSION {
        Err(PcsError::UnsupportedCertificateVersion { version: version as u16 })
    } else if total > usize::MAX {
        Err(PcsError::SizeOverflow)
    } else if total > maximum {
        Err(PcsError::CertificateTooLarge { maximum, actual: total as usize })
    } else if encoded.len() < total {
        Err(PcsError::TruncatedCertificate)
    } else if encoded.len() > total {
        Err(PcsError::TrailingCertificateBytes { trailing: (encoded.len() - total) as usize })
    } else {
        Ok(
            StreamsModel {
                narg_string: encoded.subrange(26, 26 + narg as int),
                hints: encoded.subrange(26 + narg as int, total),
            },
        )
    }
}

/// Reads at most eight little-endian bytes that lie inside a slice.
fn read_field(encoded: &[u8], start: usize, end: usize) -> (value: u64)
    requires
        start <= end <= encoded@.len(),
        end - start <= 8,
    ensures
        value == bytes::le_value(encoded@.subrange(start as int, end as int)),
{
    bytes::read_le(vstd::slice::slice_subrange(encoded, start, end))
}

impl Certificate {
    /// A certificate around the two streams of a proof.
    pub fn from_streams(narg_string: Vec<u8>, hints: Vec<u8>) -> (certificate: Certificate)
        ensures
            certificate@ == (StreamsModel { narg_string: narg_string@, hints: hints@ }),
    {
        Certificate { narg_string, hints }
    }

    /// The argument transcript stream.
    pub fn narg_string(&self) -> (stream: &[u8])
        ensures
            stream@ == self@.narg_string,
    {
        self.narg_string.as_slice()
    }

    /// The auxiliary hint stream.
    pub fn hints(&self) -> (stream: &[u8])
        ensures
            stream@ == self@.hints,
    {
        self.hints.as_slice()
    }

    /// Bytes in the argument transcript stream.
    pub fn narg_string_len(&self) -> (length: usize)
        ensures
            length == self@.narg_string.len(),
    {
        self.narg_string.len()
    }

    /// Bytes in the auxiliary hint stream.
    pub fn hints_len(&self) -> (length: usize)
        ensures
            length == self@.hints.len(),
    {
        self.hints.len()
    }

    /// Encoded certificate size, with the strict wrapper header.
    pub fn encoded_len(&self) -> (result: Result<usize, PcsError>)
        ensures
            result == (if certificate_length(self@) > usize::MAX {
                Err::<usize, PcsError>(PcsError::SizeOverflow)
            } else {
                Ok(certificate_length(self@) as usize)
            }),
    {
        let with_argument: usize = match CERTIFICATE_HEADER_BYTES.checked_add(
            self.narg_string.len(),
        ) {
            Some(length) => length,
            None => {
                return Err(PcsError::SizeOverflow);
            },
        };
        match with_argument.checked_add(self.hints.len()) {
            Some(length) => Ok(length),
            None => Err(PcsError::SizeOverflow),
        }
    }

    /// Encodes one canonical certificate.
    pub fn encode(&self) -> (result: Result<Vec<u8>, PcsError>)
        ensures
            (if certificate_length(self@) > usize::MAX {
                result matches Err(error) && error == PcsError::SizeOverflow
            } else {
                result matches Ok(encoded) && encoded@ == certificate_bytes(self@)
            }),
    {
        let length: usize = match self.encoded_len() {
            Ok(length) => length,
            Err(error) => {
                return Err(error);
            },
        };
        let mut encoded: Vec<u8> = Vec::with_capacity(length);
        bytes::append_le(&mut encoded, CERTIFICATE_MAGIC as u128, 8);
        bytes::append_le(&mut encoded, CERTIFICATE_VERSION as u128, 2);
        bytes::append_le(&mut encoded, self.narg_string.len() as u128, 8);
        bytes::append_le(&mut encoded, self.hints.len() as u128, 8);
        encoded.extend_from_slice(self.narg_string.as_slice());
        encoded.extend_from_slice(self.hints.as_slice());
        assert(encoded@ =~= certificate_bytes(self@));
        Ok(encoded)
    }

    /// Decodes with [`DEFAULT_MAX_CERTIFICATE_BYTES`] as the allocation limit.
    pub fn decode_default(encoded: &[u8]) -> (result: Result<Certificate, PcsError>)
        ensures
            (match certificate_outcome(encoded@, DEFAULT_MAX_CERTIFICATE_BYTES) {
                Ok(expected) => result matches Ok(certificate) && certificate@ == expected,
                Err(refused) => result matches Err(error) && error == refused,
            }),
    {
        Certificate::decode(encoded, DEFAULT_MAX_CERTIFICATE_BYTES)
    }

    /// Strictly decodes exactly one certificate.
    ///
    /// This rejects truncation, trailing bytes, unknown versions,
    /// non-representable lengths, and oversized payloads before copying either
    /// stream.
    pub fn decode(encoded: &[u8], maximum_bytes: usize) -> (result: Result<Certificate, PcsError>)
        ensures
            (match certificate_outcome(encoded@, maximum_bytes) {
                Ok(expected) => result matches Ok(certificate) && certificate@ == expected,
                Err(refused) => result matches Err(error) && error == refused,
            }),
    {
        if encoded.len() < CERTIFICATE_HEADER_BYTES {
            return Err(PcsError::TruncatedCertificate);
        }
        if read_field(encoded, 0, 8) != CERTIFICATE_MAGIC {
            return Err(PcsError::BadCertificateMagic);
        }
        let version: u64 = read_field(encoded, 8, 10);
        proof {
            lemma_le_value_bound(encoded@.subrange(8, 10));
            bytes::lemma_byte_powers();
        }
        if version != CERTIFICATE_VERSION as u64 {
            return Err(PcsError::UnsupportedCertificateVersion { version: version as u16 });
        }
        let narg_len: u64 = read_field(encoded, 10, 18);
        let hints_len: u64 = read_field(encoded, 18, 26);
        let total: u128 = CERTIFICATE_HEADER_BYTES as u128 + narg_len as u128 + hints_len as u128;
        if total > usize::MAX as u128 {
            return Err(PcsError::SizeOverflow);
        }
        let total_len: usize = total as usize;
        if total_len > maximum_bytes {
            return Err(
                PcsError::CertificateTooLarge { maximum: maximum_bytes, actual: total_len },
            );
        }
        if encoded.len() < total_len {
            return Err(PcsError::TruncatedCertificate);
        }
        if encoded.len() > total_len {
            return Err(
                PcsError::TrailingCertificateBytes { trailing: encoded.len() - total_len },
            );
        }
        let split: usize = CERTIFICATE_HEADER_BYTES + narg_len as usize;
        let narg_string = bytes::copy_bytes(
            vstd::slice::slice_subrange(encoded, CERTIFICATE_HEADER_BYTES, split),
        );
        let hints = bytes::copy_bytes(vstd::slice::slice_subrange(encoded, split, total_len));
        Ok(Certificate { narg_string, hints })
    }
}

proof fn lemma_le_value_bound(encoded: Seq<u8>)
    ensures
        bytes::le_value(encoded) < bytes::byte_power(encoded.len()),
{
    bytes::lemma_be_value_bound(encoded.reverse());
}

/// Reading back a fixed-width little-endian spelling gives the value.
pub proof fn lemma_le_round_trip(value: nat, width: nat)
    requires
        value < bytes::byte_power(width),
    ensures
        bytes::le_value(bytes::le_bytes(value, width)) == value,
        bytes::le_bytes(value, width).len() == width,
{
    bytes::lemma_be_bytes_len(value, width);
    bytes::lemma_be_round_trip(value, width);
    assert(bytes::le_bytes(value, width).reverse() =~= bytes::be_bytes(value, width));
}

proof fn lemma_le_bytes_of_value(encoded: Seq<u8>)
    ensures
        bytes::le_bytes(bytes::le_value(encoded), encoded.len()) == encoded,
{
    bytes::lemma_be_bytes_of_value(encoded.reverse());
    assert(encoded.reverse().reverse() =~= encoded);
}

/// An encoded certificate decodes to its streams, under every limit that admits
/// its length.
pub proof fn encoded_certificates_read_back(streams: StreamsModel, maximum: usize)
    requires
        certificate_length(streams) <= maximum,
        streams.narg_string.len() <= u64::MAX,
        streams.hints.len() <= u64::MAX,
    ensures
        certificate_outcome(certificate_bytes(streams), maximum) == Ok::<StreamsModel, PcsError>(
            streams,
        ),
{
    let encoded = certificate_bytes(streams);
    let narg = streams.narg_string.len();
    bytes::lemma_byte_powers();
    lemma_le_round_trip(CERTIFICATE_MAGIC as nat, 8);
    lemma_le_round_trip(CERTIFICATE_VERSION as nat, 2);
    lemma_le_round_trip(narg, 8);
    lemma_le_round_trip(streams.hints.len(), 8);
    assert(encoded.subrange(0, 8) =~= bytes::le_bytes(CERTIFICATE_MAGIC as nat, 8));
    assert(encoded.subrange(8, 10) =~= bytes::le_bytes(CERTIFICATE_VERSION as nat, 2));
    assert(encoded.subrange(10, 18) =~= bytes::le_bytes(narg, 8));
    assert(encoded.subrange(18, 26) =~= bytes::le_bytes(streams.hints.len(), 8));
    assert(encoded.subrange(26, 26 + narg as int) =~= streams.narg_string);
    assert(encoded.subrange(26 + narg as int, certificate_length(streams)) =~= streams.hints);
}

/// Accepted bytes are the one encoding of the certificate they decode to, so
/// that neither truncation nor trailing bytes pass.
pub proof fn decoded_certificates_are_canonical(
    encoded: Seq<u8>,
    maximum: usize,
    streams: StreamsModel,
)
    requires
        certificate_outcome(encoded, maximum) == Ok::<StreamsModel, PcsError>(streams),
    ensures
        encoded == certificate_bytes(streams),
        certificate_length(streams) <= maximum,
{
    bytes::lemma_byte_powers();
    lemma_le_bytes_of_value(encoded.subrange(0, 8));
    lemma_le_bytes_of_value(encoded.subrange(8, 10));
    lemma_le_bytes_of_value(encoded.subrange(10, 18));
    lemma_le_bytes_of_value(encoded.subrange(18, 26));
    assert(encoded =~= encoded.subrange(0, 8) + encoded.subrange(8, 10) + encoded.subrange(10, 18)
        + encoded.subrange(18, 26) + streams.narg_string + streams.hints);
    assert(encoded =~= certificate_bytes(streams));
}

/// How large the scheme's initial commitment is, in its own units.
#[derive(Clone, Copy, Debug, PartialEq, Eq, Structural)]
pub struct CommitmentLayout {
    pub codeword_elements: usize,
    pub merkle_nodes: usize,
    pub out_of_domain_points: usize,
    pub out_of_domain_elements: usize,
}

/// How large the commitment of one later round is, in its own units.
#[derive(Clone, Copy, Debug, PartialEq, Eq, Structural)]
pub struct RoundLayout {
    pub codeword_elements: usize,
    pub merkle_nodes: usize,
    pub out_of_domain_samples: usize,
    pub vectors: usize,
}

/// The bytes of one later commitment.
pub open spec fn round_bytes(round: RoundLayout) -> int {
    round.codeword_elements * FIELD_BYTES + round.merkle_nodes * HASH_BYTES + (
    round.out_of_domain_samples + round.out_of_domain_samples * round.vectors) * FIELD_BYTES
}

/// The bytes of the largest of the first `count` later commitments.
pub open spec fn largest_round(rounds: Seq<RoundLayout>, count: nat) -> int
    decreases count,
{
    if count == 0 {
        0
    } else {
        let before = largest_round(rounds, (count - 1) as nat);
        let last = round_bytes(rounds[count - 1]);
        if last > before {
            last
        } else {
            before
        }
    }
}

/// The bytes of the initial commitment apart from its source vectors.
pub open spec fn layout_bytes(layout: CommitmentLayout) -> int {
    layout.codeword_elements * FIELD_BYTES + layout.merkle_nodes * HASH_BYTES + (
    layout.out_of_domain_points + layout.out_of_domain_elements) * FIELD_BYTES
}

/// Everything that a prover retains at once.
pub open spec fn high_watermark(
    vector_len: usize,
    batch_size: usize,
    layout: CommitmentLayout,
    rounds: Seq<RoundLayout>,
    streams: StreamsModel,
) -> int {
    batch_size * vector_len * FIELD_BYTES + layout_bytes(layout) + 2 * vector_len * FIELD_BYTES
        + largest_round(rounds, rounds.len()) + certificate_length(streams)
}

/// Logical buffer accounting of a prover.
///
/// `accounted_high_watermark_bytes` is not resident memory and is not a hard
/// memory bound. It adds retained source vectors, the initial codeword and
/// Merkle tree, out-of-domain data, two full-size folding buffers, the largest
/// later commitment, and the completed proof. It excludes allocator metadata,
/// thread stacks, scratch space, transient serialization, and outer application
/// storage.
#[derive(Clone, Copy, Debug, PartialEq, Eq, Structural)]
pub struct ProverMetrics {
    pub source_vector_bytes: usize,
    pub initial_codeword_bytes: usize,
    pub initial_merkle_tree_bytes: usize,
    pub initial_ood_bytes: usize,
    pub largest_round_commitment_bytes: usize,
    pub two_full_folding_buffers: usize,
    pub certificate_bytes: usize,
    pub accounted_high_watermark_bytes: usize,
    /// Exact only when no other operation of the scheme runs concurrently.
    pub diagnostic_hash_invocations: usize,
    pub security_bits_floor: u32,
}

/// Commitment-specific verifier measurements.
#[derive(Clone, Copy, Debug, PartialEq, Eq, Structural)]
pub struct VerifierMetrics {
    pub certificate_bytes: usize,
    pub opening_points: usize,
    pub claimed_evaluations: usize,
    /// Exact only when no other operation of the scheme runs concurrently.
    pub diagnostic_hash_invocations: usize,
    pub security_bits_floor: u32,
}

/// Result of committing and proving all requested openings.
#[derive(Debug, PartialEq, Eq)]
pub struct ProverOutput {
    pub certificate: Certificate,
    pub claims: OpeningClaims,
    pub metrics: ProverMetrics,
}

/// What the scheme computed while proving.
#[derive(Debug)]
pub struct SchemeProof {
    /// The scheme's security bound for the number of opening points.
    pub computed_security: Binary64,
    pub layout: CommitmentLayout,
    pub rounds: Vec<RoundLayout>,
    pub narg_string: Vec<u8>,
    pub hints: Vec<u8>,
    pub hashes_before: usize,
    pub hashes_after: usize,
}

/// What the scheme and the application gave while verifying.
#[derive(Debug)]
pub struct SchemeReadings {
    /// Whether the commitment could be read.
    pub commitment_received: bool,
    /// The opening statement of the application's part of the transcript.
    pub claims: Result<OpeningClaims, String>,
    /// The scheme's security bound for the number of opening points.
    pub computed_security: Binary64,
    /// The opening digest in the transcript, if one could be read.
    pub received_digest: Option<[u8; 32]>,
    /// Whether the proof, its deferred final claim and its end were accepted.
    pub accepted: bool,
    pub hashes_before: usize,
    pub hashes_after: usize,
}

/// A difference that stops at zero.
pub open spec fn elapsed(before: usize, after: usize) -> usize {
    if after > before {
        (after - before) as usize
    } else {
        0
    }
}

fn elapsed_hashes(before: usize, after: usize) -> (count: usize)
    ensures
        count == elapsed(before, after),
{
    if after > before {
        after - before
    } else {
        0
    }
}

fn checked_mul(a: usize, b: usize) -> (result: Result<usize, PcsError>)
    ensures
        result == (if a * b > usize::MAX {
            Err::<usize, PcsError>(PcsError::SizeOverflow)
        } else {
            Ok((a * b) as usize)
        }),
{
    match a.checked_mul(b) {
        Some(product) => Ok(product),
        None => Err(PcsError::SizeOverflow),
    }
}

fn checked_add(a: usize, b: usize) -> (result: Result<usize, PcsError>)
    ensures
        result == (if a + b > usize::MAX {
            Err::<usize, PcsError>(PcsError::SizeOverflow)
        } else {
            Ok((a + b) as usize)
        }),
{
    match a.checked_add(b) {
        Some(sum) => Ok(sum),
        None => Err(PcsError::SizeOverflow),
    }
}

/// A sum of products with constant factors, if it fits.
fn weighted_bytes(elements: usize, nodes: usize, samples: usize) -> (result: Result<
    (usize, usize, usize, usize),
    PcsError,
>)
    ensures
        ({
            let total = elements * FIELD_BYTES + nodes * HASH_BYTES + samples * FIELD_BYTES;
            if total > usize::MAX {
                result == Err::<(usize, usize, usize, usize), PcsError>(PcsError::SizeOverflow)
            } else {
                result == Ok::<(usize, usize, usize, usize), PcsError>(
                    (
                        (elements * FIELD_BYTES) as usize,
                        (nodes * HASH_BYTES) as usize,
                        (samples * FIELD_BYTES) as usize,
                        total as usize,
                    ),
                )
            }
        }),
{
    let matrix: usize = match checked_mul(elements, FIELD_BYTES) {
        Ok(bytes) => bytes,
        Err(error) => {
            return Err(error);
        },
    };
    let tree: usize = match checked_mul(nodes, HASH_BYTES) {
        Ok(bytes) => bytes,
        Err(error) => {
            return Err(error);
        },
    };
    let outside: usize = match checked_mul(samples, FIELD_BYTES) {
        Ok(bytes) => bytes,
        Err(error) => {
            return Err(error);
        },
    };
    let sum: usize = match checked_add(matrix, tree) {
        Ok(bytes) => bytes,
        Err(error) => {
            return Err(error);
        },
    };
    match checked_add(sum, outside) {
        Ok(total) => Ok((matrix, tree, outside, total)),
        Err(error) => Err(error),
    }
}

fn round_commitment_bytes(round: RoundLayout) -> (result: Result<usize, PcsError>)
    ensures
        result == (if round_bytes(round) > usize::MAX {
            Err::<usize, PcsError>(PcsError::SizeOverflow)
        } else {
            Ok(round_bytes(round) as usize)
        }),
{
    let ghost products = round.out_of_domain_samples * round.vectors;
    assert(products >= 0) by (nonlinear_arith)
        requires
            products == round.out_of_domain_samples * round.vectors,
    ;
    let matrices: usize = match checked_mul(round.out_of_domain_samples, round.vectors) {
        Ok(count) => count,
        Err(error) => {
            return Err(error);
        },
    };
    let samples: usize = match checked_add(round.out_of_domain_samples, matrices) {
        Ok(count) => count,
        Err(error) => {
            return Err(error);
        },
    };
    match weighted_bytes(round.codeword_elements, round.merkle_nodes, samples) {
        Ok((_, _, _, total)) => Ok(total),
        Err(error) => Err(error),
    }
}

fn largest_round_commitment_bytes(rounds: &Vec<RoundLayout>) -> (result: Result<usize, PcsError>)
    ensures
        result == (if largest_round(rounds@, rounds@.len()) > usize::MAX {
            Err::<usize, PcsError>(PcsError::SizeOverflow)
        } else {
            Ok(largest_round(rounds@, rounds@.len()) as usize)
        }),
{
    let mut largest: usize = 0;
    let mut index: usize = 0;
    while index < rounds.len()
        invariant
            index <= rounds@.len(),
            largest == largest_round(rounds@, index as nat),
        decreases rounds@.len() - index,
    {
        let bytes: usize = match round_commitment_bytes(rounds[index]) {
            Ok(bytes) => bytes,
            Err(error) => {
                proof {
                    lemma_largest_round_grows(rounds@, (index + 1) as nat, rounds@.len());
                }
                return Err(error);
            },
        };
        if bytes > largest {
            largest = bytes;
        }
        index = index + 1;
    }
    Ok(largest)
}

proof fn lemma_largest_round_grows(rounds: Seq<RoundLayout>, fewer: nat, count: nat)
    requires
        fewer <= count,
    ensures
        largest_round(rounds, fewer) <= largest_round(rounds, count),
    decreases count,
{
    if fewer < count {
        lemma_largest_round_grows(rounds, fewer, (count - 1) as nat);
    }
}

/// Whether metrics account for a proof.
pub open spec fn accounts_for(
    metrics: ProverMetrics,
    vector_len: usize,
    batch_size: usize,
    proof_of: SchemeModel,
) -> bool {
    &&& metrics.source_vector_bytes == batch_size * vector_len * FIELD_BYTES
    &&& metrics.initial_codeword_bytes == proof_of.layout.codeword_elements * FIELD_BYTES
    &&& metrics.initial_merkle_tree_bytes == proof_of.layout.merkle_nodes * HASH_BYTES
    &&& metrics.initial_ood_bytes == (proof_of.layout.out_of_domain_points
        + proof_of.layout.out_of_domain_elements) * FIELD_BYTES
    &&& metrics.largest_round_commitment_bytes == largest_round(
        proof_of.rounds,
        proof_of.rounds.len(),
    )
    &&& metrics.two_full_folding_buffers == 2 * vector_len * FIELD_BYTES
    &&& metrics.certificate_bytes == certificate_length(proof_of.streams)
    &&& metrics.accounted_high_watermark_bytes == high_watermark(
        vector_len,
        batch_size,
        proof_of.layout,
        proof_of.rounds,
        proof_of.streams,
    )
    &&& metrics.diagnostic_hash_invocations == elapsed(
        proof_of.hashes_before,
        proof_of.hashes_after,
    )
    &&& pcs::security_outcome(proof_of.computed_security) == Ok::<u32, PcsError>(
        metrics.security_bits_floor,
    )
}

/// What a scheme's proof holds.
#[verifier::ext_equal]
pub struct SchemeModel {
    pub computed_security: Binary64,
    pub layout: CommitmentLayout,
    pub rounds: Seq<RoundLayout>,
    pub streams: StreamsModel,
    pub hashes_before: usize,
    pub hashes_after: usize,
}

impl View for SchemeProof {
    type V = SchemeModel;

    open spec fn view(&self) -> SchemeModel {
        SchemeModel {
            computed_security: self.computed_security,
            layout: self.layout,
            rounds: self.rounds@,
            streams: StreamsModel { narg_string: self.narg_string@, hints: self.hints@ },
            hashes_before: self.hashes_before,
            hashes_after: self.hashes_after,
        }
    }
}

/// The refusal to prove openings, if any.
pub open spec fn proving_error(
    vector_len: usize,
    batch_size: usize,
    vectors: Seq<Seq<nat>>,
    hooked: Result<OpeningClaims, String>,
    proof_of: SchemeModel,
) -> Option<PcsError> {
    if vectors.len() != batch_size {
        Some(
            PcsError::WrongBatchSize { expected: batch_size, actual: vectors.len() as usize },
        )
    } else if let Some(error) = pcs::lengths_error(vectors, vector_len, vectors.len()) {
        Some(error)
    } else {
        match hooked {
            Err(message) => Some(PcsError::TranscriptHook { message }),
            Ok(claims) => if let Some(error) = pcs::claims_error(
                pcs::exponent_of(vector_len as nat),
                batch_size,
                claims@,
                proof_of.computed_security,
            ) {
                Some(error)
            } else if high_watermark(
                vector_len,
                batch_size,
                proof_of.layout,
                proof_of.rounds,
                proof_of.streams,
            ) > usize::MAX {
                Some(PcsError::SizeOverflow)
            } else {
                None
            },
        }
    }
}

/// Whether metrics measure the verification of an opening statement.
pub open spec fn measures(
    metrics: VerifierMetrics,
    certificate: StreamsModel,
    claims: ClaimsModel,
    computed_security: Binary64,
    hashes_before: usize,
    hashes_after: usize,
) -> bool {
    &&& metrics.certificate_bytes == certificate_length(certificate)
    &&& metrics.opening_points == claims.points.len()
    &&& metrics.claimed_evaluations == claims.evaluations.len()
    &&& metrics.diagnostic_hash_invocations == elapsed(hashes_before, hashes_after)
    &&& pcs::security_outcome(computed_security) == Ok::<u32, PcsError>(
        metrics.security_bits_floor,
    )
}

/// The refusal of an opening proof by a verifier, if any.
pub open spec fn verification_error(
    vector_len: usize,
    batch_size: usize,
    certificate: StreamsModel,
    readings: SchemeReadings,
) -> Option<PcsError> {
    if !readings.commitment_received {
        Some(PcsError::Verification)
    } else {
        match readings.claims {
            Err(message) => Some(PcsError::TranscriptHook { message }),
            Ok(claims) => if let Some(error) = pcs::claims_error(
                pcs::exponent_of(vector_len as nat),
                batch_size,
                claims@,
                readings.computed_security,
            ) {
                Some(error)
            } else {
                match readings.received_digest {
                    None => Some(PcsError::Verification),
                    Some(received) => if received@ != pcs::opening_digest(
                        vector_len,
                        batch_size,
                        claims@,
                    ) {
                        Some(PcsError::OpeningStatementDigestMismatch)
                    } else if !readings.accepted {
                        Some(PcsError::Verification)
                    } else if certificate_length(certificate) > usize::MAX {
                        Some(PcsError::SizeOverflow)
                    } else {
                        None
                    },
                }
            },
        }
    }
}

impl PcsProtocol {
    /// Accounts for a proof of this shape.
    fn prover_metrics(&self, certificate: &Certificate, proof_of: &SchemeProof) -> (result: Result<
        ProverMetrics,
        PcsError,
    >)
        requires
            certificate@ == proof_of@.streams,
        ensures
            ({
                let watermark = high_watermark(
                    self.length(),
                    self.batch(),
                    proof_of@.layout,
                    proof_of@.rounds,
                    proof_of@.streams,
                );
                if watermark > usize::MAX {
                    result == Err::<ProverMetrics, PcsError>(PcsError::SizeOverflow)
                } else {
                    match pcs::security_outcome(proof_of.computed_security) {
                        Err(error) => result == Err::<ProverMetrics, PcsError>(error),
                        Ok(_) => result matches Ok(metrics) && accounts_for(
                            metrics,
                            self.length(),
                            self.batch(),
                            proof_of@,
                        ),
                    }
                }
            }),
    {
        let ghost rounds = proof_of.rounds@;
        let ghost source = self.batch() * self.length();
        proof {
            assert(source >= 0) by (nonlinear_arith)
                requires
                    source == self.batch() * self.length(),
            ;
            lemma_largest_round_grows(rounds, 0, rounds.len());
        }
        let source_elements: usize = match checked_mul(self.batch_size(), self.vector_len()) {
            Ok(count) => count,
            Err(error) => {
                return Err(error);
            },
        };
        let source_vector_bytes: usize = match checked_mul(source_elements, FIELD_BYTES) {
            Ok(bytes) => bytes,
            Err(error) => {
                return Err(error);
            },
        };
        let layout = proof_of.layout;
        let ood_elements: usize = match checked_add(
            layout.out_of_domain_points,
            layout.out_of_domain_elements,
        ) {
            Ok(count) => count,
            Err(error) => {
                return Err(error);
            },
        };
        let (codeword_bytes, merkle_tree_bytes, ood_bytes, layout_total) = match weighted_bytes(
            layout.codeword_elements,
            layout.merkle_nodes,
            ood_elements,
        ) {
            Ok(parts) => parts,
            Err(error) => {
                return Err(error);
            },
        };
        let initial: usize = match checked_add(source_vector_bytes, layout_total) {
            Ok(bytes) => bytes,
            Err(error) => {
                return Err(error);
            },
        };
        let largest: usize = match largest_round_commitment_bytes(&proof_of.rounds) {
            Ok(bytes) => bytes,
            Err(error) => {
                return Err(error);
            },
        };
        let one_buffer: usize = match checked_mul(2, self.vector_len()) {
            Ok(count) => count,
            Err(error) => {
                return Err(error);
            },
        };
        let two_full_folding_buffers: usize = match checked_mul(one_buffer, FIELD_BYTES) {
            Ok(bytes) => bytes,
            Err(error) => {
                return Err(error);
            },
        };
        let certificate_bytes: usize = match certificate.encoded_len() {
            Ok(length) => length,
            Err(error) => {
                return Err(error);
            },
        };
        let with_buffers: usize = match checked_add(initial, two_full_folding_buffers) {
            Ok(bytes) => bytes,
            Err(error) => {
                return Err(error);
            },
        };
        let with_round: usize = match checked_add(with_buffers, largest) {
            Ok(bytes) => bytes,
            Err(error) => {
                return Err(error);
            },
        };
        let accounted_high_watermark_bytes: usize = match checked_add(
            with_round,
            certificate_bytes,
        ) {
            Ok(bytes) => bytes,
            Err(error) => {
                return Err(error);
            },
        };
        let security_bits_floor: u32 = match pcs::security_bits_floor(
            proof_of.computed_security,
        ) {
            Ok(bits) => bits,
            Err(error) => {
                return Err(error);
            },
        };
        Ok(
            ProverMetrics {
                source_vector_bytes,
                initial_codeword_bytes: codeword_bytes,
                initial_merkle_tree_bytes: merkle_tree_bytes,
                initial_ood_bytes: ood_bytes,
                largest_round_commitment_bytes: largest,
                two_full_folding_buffers,
                certificate_bytes,
                accounted_high_watermark_bytes,
                diagnostic_hash_invocations: elapsed_hashes(
                    proof_of.hashes_before,
                    proof_of.hashes_after,
                ),
                security_bits_floor,
            },
        )
    }

    /// Takes up a complete proof of an accepted opening statement.
    pub(crate) fn account_for_proof(&self, claims: OpeningClaims, proof_of: SchemeProof) -> (result:
        Result<ProverOutput, PcsError>)
        ensures
            (if high_watermark(
                self.length(),
                self.batch(),
                proof_of@.layout,
                proof_of@.rounds,
                proof_of@.streams,
            ) > usize::MAX {
                result matches Err(error) && error == PcsError::SizeOverflow
            } else {
                match pcs::security_outcome(proof_of.computed_security) {
                    Err(refused) => result matches Err(error) && error == refused,
                    Ok(_) => {
                        &&& result matches Ok(output)
                        &&& output.claims == claims
                        &&& output.certificate@ == proof_of@.streams
                        &&& accounts_for(output.metrics, self.length(), self.batch(), proof_of@)
                    },
                }
            }),
    {
        let certificate = Certificate {
            narg_string: bytes::copy_bytes(proof_of.narg_string.as_slice()),
            hints: bytes::copy_bytes(proof_of.hints.as_slice()),
        };
        assert(certificate@ =~= proof_of@.streams);
        match self.prover_metrics(&certificate, &proof_of) {
            Ok(metrics) => Ok(ProverOutput { certificate, claims, metrics }),
            Err(error) => Err(error),
        }
    }

    /// Takes up a proof of the openings of a batch, given the opening statement
    /// of the application's part of the transcript and what the scheme
    /// computed. Evaluations are not trusted here: the scheme authenticates
    /// every value against the earlier commitment.
    pub fn prove_claims_with_transcript(
        &self,
        vectors: &[Vec<PcsField>],
        hooked: Result<OpeningClaims, String>,
        proof_of: SchemeProof,
    ) -> (result: Result<ProverOutput, PcsError>)
        ensures
            (match proving_error(
                self.length(),
                self.batch(),
                pcs::tables(vectors@),
                hooked,
                proof_of@,
            ) {
                Some(refused) => result matches Err(error) && error == refused,
                None => {
                    &&& result matches Ok(output)
                    &&& hooked == Ok::<OpeningClaims, String>(output.claims)
                    &&& output.certificate@ == proof_of@.streams
                    &&& accounts_for(output.metrics, self.length(), self.batch(), proof_of@)
                },
            }),
    {
        if let Err(error) = self.validate_vectors(vectors) {
            return Err(error);
        }
        let claims = match hooked {
            Ok(claims) => claims,
            Err(message) => {
                return Err(PcsError::TranscriptHook { message });
            },
        };
        if let Err(error) = self.validate_claims(&claims, proof_of.computed_security) {
            return Err(error);
        }
        self.account_for_proof(claims, proof_of)
    }

    /// Takes up the acceptance of every opening of a statement.
    pub(crate) fn measure_verification(
        &self,
        certificate: &Certificate,
        claims: &OpeningClaims,
        computed_security: Binary64,
        hashes_before: usize,
        hashes_after: usize,
    ) -> (result: Result<VerifierMetrics, PcsError>)
        ensures
            (if certificate_length(certificate@) > usize::MAX {
                result matches Err(error) && error == PcsError::SizeOverflow
            } else {
                match pcs::security_outcome(computed_security) {
                    Err(refused) => result matches Err(error) && error == refused,
                    Ok(_) => result matches Ok(metrics) && measures(
                        metrics,
                        certificate@,
                        claims@,
                        computed_security,
                        hashes_before,
                        hashes_after,
                    ),
                }
            }),
    {
        let certificate_bytes: usize = match certificate.encoded_len() {
            Ok(length) => length,
            Err(error) => {
                return Err(error);
            },
        };
        let security_bits_floor: u32 = match pcs::security_bits_floor(computed_security) {
            Ok(bits) => bits,
            Err(error) => {
                return Err(error);
            },
        };
        Ok(
            VerifierMetrics {
                certificate_bytes,
                opening_points: claims.points.len(),
                claimed_evaluations: claims.evaluations.len(),
                diagnostic_hash_invocations: elapsed_hashes(hashes_before, hashes_after),
                security_bits_floor,
            },
        )
    }

    /// Decides on an opening proof, given what the scheme and the application's
    /// part of the transcript gave.
    pub fn verify_with_transcript(
        &self,
        certificate: &Certificate,
        readings: SchemeReadings,
    ) -> (result: Result<VerifierMetrics, PcsError>)
        ensures
            (match verification_error(self.length(), self.batch(), certificate@, readings) {
                Some(refused) => result matches Err(error) && error == refused,
                None => result matches Ok(metrics) && measures(
                    metrics,
                    certificate@,
                    readings.claims->Ok_0@,
                    readings.computed_security,
                    readings.hashes_before,
                    readings.hashes_after,
                ),
            }),
    {
        if !readings.commitment_received {
            return Err(PcsError::Verification);
        }
        let claims = match readings.claims {
            Ok(claims) => claims,
            Err(message) => {
                return Err(PcsError::TranscriptHook { message });
            },
        };
        let expected_digest = match self.bind_openings(&claims, readings.computed_security) {
            Ok(digest) => digest,
            Err(error) => {
                return Err(error);
            },
        };
        let received_digest = match readings.received_digest {
            Some(digest) => digest,
            None => {
                return Err(PcsError::Verification);
            },
        };
        if !bytes::same_bytes(received_digest.as_slice(), expected_digest.as_slice()) {
            return Err(PcsError::OpeningStatementDigestMismatch);
        }
        if !readings.accepted {
            return Err(PcsError::Verification);
        }
        self.measure_verification(
            certificate,
            &claims,
            readings.computed_security,
            readings.hashes_before,
            readings.hashes_after,
        )
    }
}

} // verus!
