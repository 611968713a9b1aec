//! The one cryptographic primitive everything else is stated through: the
//! 256-bit Blake2b digest.
use vstd::prelude::*;

verus! {

/// The 256-bit Blake2b digest of a byte string. The digest is a fixed
/// function of the input bytes alone; the checksum of the text address
/// format and the derived multisignature identifier are both stated
/// through this name.
pub uninterp spec fn blake2_256_of(data: Seq<u8>) -> Seq<u8>;

/// Relies on sp_io::hashing::blake2_256: the 32-byte Blake2b-256 digest of
/// the input, depending on the input bytes alone.
#[verifier::external_body]
pub(crate) fn blake2_256(data: &[u8]) -> (r: Vec<u8>)
    ensures
        r@ == blake2_256_of(data@),
        r@.len() == 32,
{
    sp_io::hashing::blake2_256(data).to_vec()
}

} // verus!
