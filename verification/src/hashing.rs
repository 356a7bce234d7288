//! The BLAKE3 functions that the library calls.

use vstd::prelude::*;

verus! {

/// Byte `position` of the BLAKE3 extended output in key-derivation mode, for a
/// context string and an input.
pub uninterp spec fn blake3_derived_byte(context: Seq<char>, input: Seq<u8>, position: nat) -> u8;

/// The default-length BLAKE3 digest of an input.
pub uninterp spec fn blake3_digest(input: Seq<u8>) -> Seq<u8>;

/// Consecutive bytes of the BLAKE3 extended output in key-derivation mode.
pub open spec fn blake3_derived_bytes(
    context: Seq<char>,
    input: Seq<u8>,
    start: nat,
    length: nat,
) -> Seq<u8> {
    Seq::new(length, |i: int| blake3_derived_byte(context, input, (start + i) as nat))
}

/// Calls `blake3::Hasher::new_derive_key`, `update`, `finalize_xof`, and on the
/// output reader `set_position` and `fill`.
///
/// Claims that the bytes read are the extended output of the context and the
/// input from `start` on, so that each byte depends on its position alone and
/// not on how the output is cut into reads. Reads past the end of the output
/// are excluded.
#[verifier::external_body]
fn blake3_read(context: &str, input: &[u8], start: u64, length: usize) -> (output:
    Vec<u8>)
    requires
        start + length <= u64::MAX,
    ensures
        output@.len() == length,
        forall|i: int|
            0 <= i < length ==> #[trigger] output@[i] == blake3_derived_byte(
                context@,
                input@,
                (start + i) as nat,
            ),
{
    let mut hasher = blake3::Hasher::new_derive_key(context);
    hasher.update(input);
    let mut reader = hasher.finalize_xof();
    reader.set_position(start);
    let mut output = vec![0u8; length];
    reader.fill(&mut output);
    output
}

/// Calls `blake3::hash`.
///
/// Claims that the digest is a function of the input bytes.
#[verifier::external_body]
pub(crate) fn blake3_hash(input: &[u8]) -> (digest: [u8; 32])
    ensures
        digest@ == blake3_digest(input@),
{
    *blake3::hash(input).as_bytes()
}

/// Consecutive bytes of the extended output for a context and an input.
pub(crate) fn blake3_derive(context: &str, input: &[u8], start: u64, length: usize) -> (output:
    Vec<u8>)
    requires
        start + length <= u64::MAX,
    ensures
        output@ == blake3_derived_bytes(context@, input@, start as nat, length as nat),
{
    let output = blake3_read(context, input, start, length);
    assert(output@ =~= blake3_derived_bytes(context@, input@, start as nat, length as nat));
    output
}

} // verus!
