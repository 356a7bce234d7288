//! Seeds, challenge contexts, and the derivation of one from the other.

use vstd::prelude::*;

use crate::bytes;
use crate::canonical;
use crate::canonical::{domain_separated_digest, CanonicalEncode, Digest, Encoder};
use crate::hashing;
use crate::text;

verus! {

/// Largest accepted challenge context.
pub const MAX_CHALLENGE_CONTEXT_BYTES: usize = 65536;

pub const INSTANCE_SEED_DERIVATION_CONTEXT: &'static str = "sparse-solve/problem-instance-seed/v1";

pub const SUBSEED_DERIVATION_CONTEXT: &'static str = "sparse-solve/problem-subseed/v1";

pub const CHALLENGE_CONTEXT_DIGEST_DOMAIN: &'static str = "sparse-solve/challenge-context/v1";

/// Digest of a validated problem template before challenge-derived randomness.
#[derive(Clone, Copy, Debug, PartialEq, Eq, Hash)]
pub struct ProblemTemplateDigest {
    digest: Digest,
}

impl View for ProblemTemplateDigest {
    type V = Seq<u8>;

    closed spec fn view(&self) -> Seq<u8> {
        self.digest@
    }
}

/// The template digest that holds the given bytes.
pub open spec fn template_digest_of(bytes: Seq<u8>) -> ProblemTemplateDigest {
    choose|digest: ProblemTemplateDigest| digest@ == bytes
}

/// A template digest is determined by its bytes.
pub proof fn lemma_template_digest_of(digest: ProblemTemplateDigest)
    ensures
        template_digest_of(digest@) == digest,
        digest@.len() == 32,
{
    let chosen = template_digest_of(digest@);
    canonical::lemma_digest_extensional(chosen.digest, digest.digest);
}

impl ProblemTemplateDigest {
    pub fn from_bytes(bytes: [u8; 32]) -> (digest: ProblemTemplateDigest)
        ensures
            digest@ == bytes@,
    {
        ProblemTemplateDigest { digest: Digest::from_bytes(bytes) }
    }

    pub fn as_bytes(&self) -> (bytes: &[u8; 32])
        ensures
            bytes@ == self@,
    {
        self.digest.as_bytes()
    }

    pub fn into_bytes(self) -> (bytes: [u8; 32])
        ensures
            bytes@ == self@,
    {
        self.digest.into_bytes()
    }

    /// The lowercase hexadecimal spelling.
    pub fn to_hex(&self) -> (spelling: String)
        ensures
            spelling@ == text::hex_text(self@),
    {
        self.digest.to_hex()
    }

    /// Reads exactly 64 lowercase hexadecimal characters.
    pub fn from_hex(spelling: &str) -> (result: Option<ProblemTemplateDigest>)
        ensures
            (match result {
                Some(found) => spelling@ == text::hex_text(found@),
                None => forall|bytes: Seq<u8>|
                    bytes.len() == 32 ==> spelling@ != #[trigger] text::hex_text(bytes),
            }),
    {
        match text::parse_hex_32(spelling) {
            Some(bytes) => Some(ProblemTemplateDigest { digest: Digest::from_bytes(bytes) }),
            None => None,
        }
    }

    pub(crate) fn from_digest(digest: Digest) -> (typed: ProblemTemplateDigest)
        ensures
            typed@ == digest@,
    {
        ProblemTemplateDigest { digest }
    }

    pub(crate) fn inner(&self) -> (digest: &Digest)
        ensures
            digest@ == self@,
    {
        &self.digest
    }
}

/// Exactly 256 bits of generator input.
#[derive(Clone, Copy, Debug, PartialEq, Eq, PartialOrd, Ord, Hash)]
pub struct InstanceSeed {
    bytes: [u8; 32],
}

impl View for InstanceSeed {
    type V = Seq<u8>;

    closed spec fn view(&self) -> Seq<u8> {
        self.bytes@
    }
}

impl InstanceSeed {
    pub fn from_bytes(bytes: [u8; 32]) -> (seed: InstanceSeed)
        ensures
            seed@ == bytes@,
    {
        InstanceSeed { bytes }
    }

    pub fn as_bytes(&self) -> (bytes: &[u8; 32])
        ensures
            bytes@ == self@,
    {
        &self.bytes
    }

    pub fn into_bytes(self) -> (bytes: [u8; 32])
        ensures
            bytes@ == self@,
    {
        self.bytes
    }

    /// The lowercase hexadecimal spelling.
    pub fn to_hex(&self) -> (spelling: String)
        ensures
            spelling@ == text::hex_text(self@),
    {
        text::hex_encode(self.bytes.as_slice())
    }

    /// Reads exactly 64 lowercase hexadecimal characters.
    pub fn from_hex(spelling: &str) -> (result: Result<InstanceSeed, &'static str>)
        ensures
            (match result {
                Ok(seed) => spelling@ == text::hex_text(seed@),
                Err(message) => {
                    &&& message@
                        == "an instance seed must be exactly 64 lowercase hexadecimal characters"@
                    &&& forall|bytes: Seq<u8>|
                        bytes.len() == 32 ==> spelling@ != #[trigger] text::hex_text(bytes)
                },
            }),
    {
        match text::parse_hex_32(spelling) {
            Some(bytes) => Ok(InstanceSeed { bytes }),
            None => Err("an instance seed must be exactly 64 lowercase hexadecimal characters"),
        }
    }
}

/// Opaque canonical challenge bytes embedded in a finalized problem.
#[derive(Clone, Debug, PartialEq, Eq, Hash)]
pub struct CanonicalContextBytes {
    bytes: Vec<u8>,
}

impl View for CanonicalContextBytes {
    type V = Seq<u8>;

    closed spec fn view(&self) -> Seq<u8> {
        self.bytes@
    }
}

impl CanonicalContextBytes {
    pub fn new(bytes: Vec<u8>) -> (result: Result<CanonicalContextBytes, &'static str>)
        ensures
            bytes@.len() > MAX_CHALLENGE_CONTEXT_BYTES ==> (result matches Err(message) && message@
                == "challenge context exceeds the configured byte limit"@),
            bytes@.len() <= MAX_CHALLENGE_CONTEXT_BYTES ==> (result matches Ok(context) && context@
                == bytes@),
    {
        if bytes.len() > MAX_CHALLENGE_CONTEXT_BYTES {
            return Err("challenge context exceeds the configured byte limit");
        }
        Ok(CanonicalContextBytes { bytes })
    }

    pub fn as_slice(&self) -> (bytes: &[u8])
        ensures
            bytes@ == self@,
    {
        self.bytes.as_slice()
    }

    /// The lowercase hexadecimal spelling, the only one.
    pub fn to_hex(&self) -> (spelling: String)
        ensures
            spelling@ == text::hex_text(self@),
    {
        text::hex_encode(self.bytes.as_slice())
    }

    /// Reads an even-length lowercase hexadecimal byte string.
    pub fn from_hex(spelling: &str) -> (result: Result<CanonicalContextBytes, &'static str>)
        ensures
            (if vstd::utf8::encode_utf8(spelling@).len() > 2 * MAX_CHALLENGE_CONTEXT_BYTES {
                result matches Err(message) && message@
                    == "challenge context exceeds the configured byte limit"@
            } else {
                match result {
                    Ok(context) => spelling@ == text::hex_text(context@),
                    Err(message) => {
                        &&& message@
                            == "challenge context must be even-length lowercase hexadecimal"@
                        &&& forall|bytes: Seq<u8>| spelling@ != #[trigger] text::hex_text(bytes)
                    },
                }
            }),
    {
        if spelling.as_bytes().len() > 2 * MAX_CHALLENGE_CONTEXT_BYTES {
            return Err("challenge context exceeds the configured byte limit");
        }
        match text::parse_lower_hex(spelling) {
            Some(bytes) => Ok(CanonicalContextBytes { bytes }),
            None => Err("challenge context must be even-length lowercase hexadecimal"),
        }
    }

    pub fn into_vec(self) -> (bytes: Vec<u8>)
        ensures
            bytes@ == self@,
    {
        self.bytes
    }
}

/// Frozen rule used to turn a template and prior challenge context into a seed.
#[derive(Clone, Copy, Debug, PartialEq, Eq, Hash, Structural)]
pub enum SeedDerivation {
    Blake3XofV1,
}

/// Randomness policy committed by the problem template.
#[derive(Clone, Copy, Debug, PartialEq, Eq)]
pub enum TemplateRandomness {
    LiteralV1 { seed: InstanceSeed },
    ChallengeDerivedV1 { derivation: SeedDerivation },
}

/// Challenge bytes carried by a self-contained finalized problem.
#[derive(Clone, Debug, PartialEq, Eq)]
pub enum ChallengeContext {
    EmbeddedV1 { canonical_bytes: CanonicalContextBytes },
}

impl View for ChallengeContext {
    type V = Seq<u8>;

    open spec fn view(&self) -> Seq<u8> {
        match self {
            ChallengeContext::EmbeddedV1 { canonical_bytes } => canonical_bytes@,
        }
    }
}

impl ChallengeContext {
    pub fn canonical_bytes(&self) -> (bytes: &[u8])
        ensures
            bytes@ == self@,
    {
        match self {
            ChallengeContext::EmbeddedV1 { canonical_bytes } => canonical_bytes.as_slice(),
        }
    }
}

/// Auditable randomness record carried by a finalized problem.
#[derive(Debug, PartialEq, Eq)]
pub enum FinalizedRandomness {
    LiteralV1 { seed: InstanceSeed },
    ChallengeDerivedV1 {
        derivation: SeedDerivation,
        template_digest: ProblemTemplateDigest,
        challenge_context: ChallengeContext,
        challenge_context_digest: Digest,
        /// Redundant by design. Validation recomputes and compares this seed.
        seed: InstanceSeed,
    },
}

/// What a template's randomness policy says.
#[verifier::ext_equal]
pub enum TemplateRandomnessModel {
    Literal { seed: Seq<u8> },
    ChallengeDerived { derivation: SeedDerivation },
}

/// What a finalized randomness record says.
#[verifier::ext_equal]
pub enum RandomnessModel {
    Literal { seed: Seq<u8> },
    ChallengeDerived {
        derivation: SeedDerivation,
        template_digest: Seq<u8>,
        context: Seq<u8>,
        context_digest: Seq<u8>,
        seed: Seq<u8>,
    },
}

impl RandomnessModel {
    /// The seed of the record.
    pub open spec fn seed(self) -> Seq<u8> {
        match self {
            RandomnessModel::Literal { seed } => seed,
            RandomnessModel::ChallengeDerived { seed, .. } => seed,
        }
    }

    /// The policy that the record was finalized under.
    pub open spec fn policy(self) -> TemplateRandomnessModel {
        match self {
            RandomnessModel::Literal { seed } => TemplateRandomnessModel::Literal { seed },
            RandomnessModel::ChallengeDerived { derivation, .. } => {
                TemplateRandomnessModel::ChallengeDerived { derivation }
            },
        }
    }
}

impl View for TemplateRandomness {
    type V = TemplateRandomnessModel;

    open spec fn view(&self) -> TemplateRandomnessModel {
        match self {
            TemplateRandomness::LiteralV1 { seed } => TemplateRandomnessModel::Literal {
                seed: seed@,
            },
            TemplateRandomness::ChallengeDerivedV1 { derivation } => {
                TemplateRandomnessModel::ChallengeDerived { derivation: *derivation }
            },
        }
    }
}

impl View for FinalizedRandomness {
    type V = RandomnessModel;

    open spec fn view(&self) -> RandomnessModel {
        match self {
            FinalizedRandomness::LiteralV1 { seed } => RandomnessModel::Literal { seed: seed@ },
            FinalizedRandomness::ChallengeDerivedV1 {
                derivation,
                template_digest,
                challenge_context,
                challenge_context_digest,
                seed,
            } => RandomnessModel::ChallengeDerived {
                derivation: *derivation,
                template_digest: template_digest@,
                context: challenge_context@,
                context_digest: challenge_context_digest@,
                seed: seed@,
            },
        }
    }
}

impl Clone for FinalizedRandomness {
    fn clone(&self) -> (copy: Self)
        ensures
            copy@ == self@,
    {
        match self {
            FinalizedRandomness::LiteralV1 { seed } => FinalizedRandomness::LiteralV1 {
                seed: *seed,
            },
            FinalizedRandomness::ChallengeDerivedV1 {
                derivation,
                template_digest,
                challenge_context,
                challenge_context_digest,
                seed,
            } => FinalizedRandomness::ChallengeDerivedV1 {
                derivation: *derivation,
                template_digest: *template_digest,
                challenge_context: ChallengeContext::EmbeddedV1 {
                    canonical_bytes: CanonicalContextBytes {
                        bytes: bytes::copy_bytes(challenge_context.canonical_bytes()),
                    },
                },
                challenge_context_digest: *challenge_context_digest,
                seed: *seed,
            },
        }
    }
}

impl FinalizedRandomness {
    pub fn instance_seed(&self) -> (seed: InstanceSeed)
        ensures
            seed@ == self@.seed(),
    {
        match self {
            FinalizedRandomness::LiteralV1 { seed } => *seed,
            FinalizedRandomness::ChallengeDerivedV1 { seed, .. } => *seed,
        }
    }

    pub fn is_challenge_derived(&self) -> (derived: bool)
        ensures
            derived == (self@ is ChallengeDerived),
    {
        matches!(self, FinalizedRandomness::ChallengeDerivedV1 { .. })
    }

    pub fn challenge_context(&self) -> (context: Option<&ChallengeContext>)
        ensures
            self@ matches RandomnessModel::ChallengeDerived { context: expected, .. } ==> (context
                matches Some(found) && found@ == expected),
            self@ is Literal ==> context is None,
    {
        match self {
            FinalizedRandomness::LiteralV1 { .. } => None,
            FinalizedRandomness::ChallengeDerivedV1 { challenge_context, .. } => Some(
                challenge_context,
            ),
        }
    }
}

/// The seed that a template digest and a challenge context derive.
pub open spec fn instance_seed_bytes(template_digest: Seq<u8>, context: Seq<u8>) -> Seq<u8> {
    hashing::blake3_derived_bytes(
        INSTANCE_SEED_DERIVATION_CONTEXT@,
        template_digest + bytes::le_bytes(context.len(), 8) + context,
        0,
        32,
    )
}

/// The seed of the stream that a label names under an instance seed.
pub open spec fn subseed_bytes(seed: Seq<u8>, label: Seq<u8>) -> Seq<u8> {
    hashing::blake3_derived_bytes(
        SUBSEED_DERIVATION_CONTEXT@,
        seed + bytes::le_bytes(label.len(), 8) + label,
        0,
        32,
    )
}

/// The digest recorded for a challenge context.
pub open spec fn context_digest_bytes(context: Seq<u8>) -> Seq<u8> {
    canonical::domain_digest(
        vstd::utf8::encode_utf8(CHALLENGE_CONTEXT_DIGEST_DOMAIN@),
        context,
    )
}

/// A prefix of known length, then the length of a byte string, then the string.
fn length_delimited(prefix: &[u8; 32], payload: &[u8]) -> (input: Vec<u8>)
    ensures
        input@ == prefix@ + bytes::le_bytes(payload@.len(), 8) + payload@,
{
    let mut input = bytes::copy_bytes(prefix.as_slice());
    bytes::append_le(&mut input, payload.len() as u128, 8);
    input.extend_from_slice(payload);
    assert(input@ =~= prefix@ + bytes::le_bytes(payload@.len(), 8) + payload@);
    input
}

/// Deterministically derives an instance seed from a typed template digest and
/// the exact prior challenge-context bytes.
pub fn derive_instance_seed(template_digest: ProblemTemplateDigest, challenge_context: &[u8]) -> (
    seed: InstanceSeed)
    ensures
        seed@ == instance_seed_bytes(template_digest@, challenge_context@),
{
    let input = length_delimited(template_digest.as_bytes(), challenge_context);
    let output = hashing::blake3_derive(INSTANCE_SEED_DERIVATION_CONTEXT, input.as_slice(), 0, 32);
    InstanceSeed { bytes: bytes::to_array_32(output.as_slice()) }
}

/// Derives an independent generator stream from the common instance seed.
/// Labels are length-delimited, making domain separation unambiguous.
pub fn derive_subseed(instance_seed: InstanceSeed, label: &str) -> (seed: InstanceSeed)
    ensures
        seed@ == subseed_bytes(instance_seed@, vstd::utf8::encode_utf8(label@)),
{
    derive_labelled(instance_seed, label.as_bytes())
}

/// Derives the stream that the bytes of a label name.
pub(crate) fn derive_labelled(instance_seed: InstanceSeed, label: &[u8]) -> (seed: InstanceSeed)
    ensures
        seed@ == subseed_bytes(instance_seed@, label@),
{
    let input = length_delimited(instance_seed.as_bytes(), label);
    let output = hashing::blake3_derive(SUBSEED_DERIVATION_CONTEXT, input.as_slice(), 0, 32);
    InstanceSeed { bytes: bytes::to_array_32(output.as_slice()) }
}

pub(crate) fn challenge_context_digest(context: &[u8]) -> (digest: Digest)
    ensures
        digest@ == context_digest_bytes(context@),
{
    domain_separated_digest(CHALLENGE_CONTEXT_DIGEST_DOMAIN.as_bytes(), context)
}

/// Distinct label spellings, and distinct contexts, reach the derivation as
/// distinct inputs.
pub proof fn derivation_inputs_are_distinct(
    prefix: Seq<u8>,
    first: Seq<u8>,
    second: Seq<u8>,
)
    requires
        first != second,
    ensures
        prefix + bytes::le_bytes(first.len(), 8) + first != prefix + bytes::le_bytes(
            second.len(),
            8,
        ) + second,
{
    let left = prefix + bytes::le_bytes(first.len(), 8) + first;
    let right = prefix + bytes::le_bytes(second.len(), 8) + second;
    bytes::lemma_be_bytes_len(first.len(), 8);
    bytes::lemma_be_bytes_len(second.len(), 8);
    assert(left.skip(prefix.len() as int + 8) =~= first);
    assert(right.skip(prefix.len() as int + 8) =~= second);
}

/// Canonical bytes of a template randomness policy.
pub open spec fn policy_encoding(policy: TemplateRandomnessModel) -> Seq<u8> {
    match policy {
        TemplateRandomnessModel::Literal { seed } => bytes::be_bytes(1, 2) + seed,
        TemplateRandomnessModel::ChallengeDerived { derivation } => bytes::be_bytes(2, 2)
            + bytes::be_bytes(1, 2),
    }
}

/// Canonical bytes of a finalized randomness record.
pub open spec fn randomness_encoding(record: RandomnessModel) -> Seq<u8> {
    match record {
        RandomnessModel::Literal { seed } => bytes::be_bytes(1, 2) + seed,
        RandomnessModel::ChallengeDerived {
            derivation,
            template_digest,
            context,
            context_digest,
            seed,
        } => bytes::be_bytes(2, 2) + bytes::be_bytes(1, 2) + template_digest + bytes::be_bytes(1, 2)
            + canonical::framed(context) + context_digest + seed,
    }
}

impl CanonicalEncode for InstanceSeed {
    open spec fn encoding(&self) -> Seq<u8> {
        self@
    }

    fn encode(&self, encoder: &mut Encoder) {
        encoder.write_fixed_bytes(self.bytes.as_slice());
    }
}

impl CanonicalEncode for SeedDerivation {
    open spec fn encoding(&self) -> Seq<u8> {
        bytes::be_bytes(1, 2)
    }

    fn encode(&self, encoder: &mut Encoder) {
        match self {
            SeedDerivation::Blake3XofV1 => encoder.write_u16(1),
        }
    }
}

impl CanonicalEncode for TemplateRandomness {
    open spec fn encoding(&self) -> Seq<u8> {
        policy_encoding(self@)
    }

    fn encode(&self, encoder: &mut Encoder) {
        match self {
            TemplateRandomness::LiteralV1 { seed } => {
                encoder.write_u16(1);
                seed.encode(encoder);
            },
            TemplateRandomness::ChallengeDerivedV1 { derivation } => {
                encoder.write_u16(2);
                derivation.encode(encoder);
            },
        }
        assert(encoder@ =~= old(encoder)@ + self.encoding());
    }
}

impl CanonicalEncode for ChallengeContext {
    open spec fn encoding(&self) -> Seq<u8> {
        bytes::be_bytes(1, 2) + canonical::framed(self@)
    }

    fn encode(&self, encoder: &mut Encoder) {
        match self {
            ChallengeContext::EmbeddedV1 { canonical_bytes } => {
                encoder.write_u16(1);
                encoder.write_bytes(canonical_bytes.as_slice());
            },
        }
        assert(encoder@ =~= old(encoder)@ + self.encoding());
    }
}

impl CanonicalEncode for FinalizedRandomness {
    open spec fn encoding(&self) -> Seq<u8> {
        randomness_encoding(self@)
    }

    fn encode(&self, encoder: &mut Encoder) {
        match self {
            FinalizedRandomness::LiteralV1 { seed } => {
                encoder.write_u16(1);
                seed.encode(encoder);
            },
            FinalizedRandomness::ChallengeDerivedV1 {
                derivation,
                template_digest,
                challenge_context,
                challenge_context_digest,
                seed,
            } => {
                encoder.write_u16(2);
                derivation.encode(encoder);
                encoder.write_digest(template_digest.inner());
                challenge_context.encode(encoder);
                encoder.write_digest(challenge_context_digest);
                seed.encode(encoder);
            },
        }
        assert(encoder@ =~= old(encoder)@ + self.encoding());
    }
}

} // verus!
