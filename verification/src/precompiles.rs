//! The hash primitive: Keccak-256, reached through one trusted wrapper.
use vstd::prelude::*;

verus! {

/// The Keccak-256 digest of a byte sequence. The digest is a pure function of
/// the input bytes alone; nothing further is assumed about it here.
pub uninterp spec fn keccak_spec(input: Seq<u8>) -> Seq<u8>;

/// Computes the Keccak-256 hash of the input bytes.
///
/// Relies on `tiny_keccak::Keccak::v256` (with `update` and `finalize` from
/// `tiny_keccak::Hasher`): a 32-byte Keccak-256 digest that depends on the
/// input bytes alone.
#[verifier::external_body]
pub fn sp1_keccak256(bytes: &[u8]) -> (r: Vec<u8>)
    ensures
        r@ == keccak_spec(bytes@),
        r@.len() == 32,
{
    let mut hasher = tiny_keccak::Keccak::v256();
    tiny_keccak::Hasher::update(&mut hasher, bytes);
    let mut output = [0u8; 32];
    tiny_keccak::Hasher::finalize(hasher, &mut output);
    output.to_vec()
}

} // verus!
