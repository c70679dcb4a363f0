//! The digest that keys the XOR obfuscation of version `'8'` archives: the
//! SHA-1 hash of the archive's index region, taken through the `sha1` crate.
use sha1::Digest;
use vstd::prelude::*;

verus! {

/// The SHA-1 digest of a byte sequence. The hash itself is computed by the
/// `sha1` crate; the codec only needs that it is a 20-byte function of the
/// input bytes, so the value is left unspecified.
pub uninterp spec fn sha1_of(data: Seq<u8>) -> Seq<u8>;

/// Relies on `sha1::Sha1` through the `Digest` trait: `update` feeds the
/// input and `finalize` returns its 20-byte SHA-1 digest, a function of the
/// input bytes alone.
#[verifier::external_body]
pub(crate) fn sha1_digest(data: &Vec<u8>) -> (r: Vec<u8>)
    ensures
        r@ == sha1_of(data@),
        r@.len() == 20,
{
    let mut hasher = sha1::Sha1::new();
    hasher.update(data.as_slice());
    hasher.finalize().to_vec()
}

} // verus!
