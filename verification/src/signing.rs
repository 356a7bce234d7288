//! Ed25519 keys and signatures by their bytes.

use ed25519_dalek::Signer;
use vstd::prelude::*;

use crate::bytes;
use crate::text;

verus! {

/// The public key of a 32-byte secret seed.
pub uninterp spec fn ed25519_public_key(seed: Seq<u8>) -> Seq<u8>;

/// The signature of a message under a 32-byte secret seed.
pub uninterp spec fn ed25519_signature(seed: Seq<u8>, message: Seq<u8>) -> Seq<u8>;

/// Whether strict verification accepts a signature of a message under a public
/// key.
pub uninterp spec fn ed25519_accepts(
    public_key: Seq<u8>,
    message: Seq<u8>,
    signature: Seq<u8>,
) -> bool;

/// The compressed neutral element of the curve.
pub open spec fn neutral_point() -> Seq<u8> {
    Seq::new(
        32,
        |i: int|
            if i == 0 {
                1u8
            } else {
                0u8
            },
    )
}

/// Calls `SigningKey::from_bytes` and `verifying_key`.
///
/// Claims that the public key is a function of the seed.
#[verifier::external_body]
fn derive_public_key(seed: &[u8; 32]) -> (key: [u8; 32])
    ensures
        key@ == ed25519_public_key(seed@),
{
    ed25519_dalek::SigningKey::from_bytes(seed).verifying_key().to_bytes()
}

/// Calls `SigningKey::from_bytes` and `sign`.
///
/// Claims that signing is deterministic, and that strict verification under the
/// seed's own public key accepts the signature unless its commitment point is
/// the neutral element, which strict verification refuses.
#[verifier::external_body]
fn sign_message(seed: &[u8; 32], message: &[u8]) -> (signature: [u8; 64])
    ensures
        signature@ == ed25519_signature(seed@, message@),
        signature@.take(32) != neutral_point() ==> ed25519_accepts(
            ed25519_public_key(seed@),
            message@,
            signature@,
        ),
{
    ed25519_dalek::SigningKey::from_bytes(seed).sign(message).to_bytes()
}

/// Calls `VerifyingKey::from_bytes` and `verify_strict`.
///
/// Claims that acceptance is a function of the key, the message and the
/// signature. Bytes that are no public key accept nothing.
#[verifier::external_body]
fn verify_message(key: &[u8; 32], message: &[u8], signature: &[u8; 64]) -> (accepted: bool)
    ensures
        accepted == ed25519_accepts(key@, message@, signature@),
{
    let signature = ed25519_dalek::Signature::from_bytes(signature);
    match ed25519_dalek::VerifyingKey::from_bytes(key) {
        Ok(key) => key.verify_strict(message, &signature).is_ok(),
        Err(_) => false,
    }
}

/// An Ed25519 secret key, held as its seed.
#[derive(Clone, Copy)]
pub struct SigningKey {
    seed: [u8; 32],
}

impl View for SigningKey {
    type V = Seq<u8>;

    closed spec fn view(&self) -> Seq<u8> {
        self.seed@
    }
}

impl SigningKey {
    pub fn from_bytes(seed: &[u8; 32]) -> (key: SigningKey)
        ensures
            key@ == seed@,
    {
        SigningKey { seed: *seed }
    }

    pub fn verifying_key(&self) -> (key: VerifyingKey)
        ensures
            key@ == ed25519_public_key(self@),
    {
        VerifyingKey { bytes: derive_public_key(&self.seed) }
    }

    pub(crate) fn sign(&self, message: &[u8]) -> (signature: SignatureBytes)
        ensures
            signature@ == ed25519_signature(self@, message@),
            signature@.take(32) != neutral_point() ==> ed25519_accepts(
                ed25519_public_key(self@),
                message@,
                signature@,
            ),
    {
        SignatureBytes { bytes: sign_message(&self.seed, message) }
    }
}

/// An Ed25519 public key, held as its bytes.
#[derive(Clone, Copy, Debug, PartialEq, Eq)]
pub struct VerifyingKey {
    bytes: [u8; 32],
}

impl View for VerifyingKey {
    type V = Seq<u8>;

    closed spec fn view(&self) -> Seq<u8> {
        self.bytes@
    }
}

impl VerifyingKey {
    pub fn from_bytes(bytes: [u8; 32]) -> (key: VerifyingKey)
        ensures
            key@ == bytes@,
    {
        VerifyingKey { bytes }
    }

    pub fn to_bytes(&self) -> (bytes: [u8; 32])
        ensures
            bytes@ == self@,
    {
        self.bytes
    }

    pub(crate) fn accepts(&self, message: &[u8], signature: &SignatureBytes) -> (accepted: bool)
        ensures
            accepted == ed25519_accepts(self@, message@, signature@),
    {
        verify_message(&self.bytes, message, &signature.bytes)
    }
}

/// An Ed25519 signature, spelled as strict lowercase hexadecimal.
#[derive(Clone, Copy, Debug, PartialEq, Eq)]
pub struct SignatureBytes {
    bytes: [u8; 64],
}

impl View for SignatureBytes {
    type V = Seq<u8>;

    closed spec fn view(&self) -> Seq<u8> {
        self.bytes@
    }
}

/// A signature is determined by its bytes.
pub proof fn lemma_signature_extensional(left: SignatureBytes, right: SignatureBytes)
    ensures
        (left == right) == (left@ == right@),
        left@.len() == 64,
{
    if left@ == right@ {
        assert(left.bytes == right.bytes);
    }
}

impl SignatureBytes {
    pub fn from_bytes(bytes: [u8; 64]) -> (signature: SignatureBytes)
        ensures
            signature@ == bytes@,
    {
        SignatureBytes { bytes }
    }

    pub fn as_bytes(&self) -> (bytes: &[u8; 64])
        ensures
            bytes@ == self@,
    {
        &self.bytes
    }

    /// The lowercase hexadecimal spelling.
    pub fn to_hex(&self) -> (spelling: String)
        ensures
            spelling@ == text::hex_text(self@),
    {
        text::hex_encode(self.bytes.as_slice())
    }

    /// Reads exactly 128 lowercase hexadecimal characters.
    pub fn from_hex(spelling: &str) -> (result: Option<SignatureBytes>)
        ensures
            (match result {
                Some(signature) => spelling@ == text::hex_text(signature@),
                None => forall|bytes: Seq<u8>|
                    bytes.len() == 64 ==> spelling@ != #[trigger] text::hex_text(bytes),
            }),
    {
        match text::parse_lower_hex(spelling) {
            Some(decoded) => if decoded.len() == 64 {
                Some(SignatureBytes { bytes: bytes::to_array_64(decoded.as_slice()) })
            } else {
                proof {
                    assert forall|bytes: Seq<u8>| bytes.len() == 64 implies spelling@
                        != #[trigger] text::hex_text(bytes) by {
                        assert(text::hex_text(bytes).len() == 128);
                    }
                }
                None
            },
            None => None,
        }
    }
}

} // verus!
