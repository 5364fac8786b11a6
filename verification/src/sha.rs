//! SHA-1 digests, through the `sha1` crate.  The digest is named
//! `sha1_of`; it is a function of the input bytes alone.

use vstd::prelude::*;

verus! {

pub uninterp spec fn sha1_of(s: Seq<u8>) -> Seq<u8>;

/// Relies on `sha1::Sha1` (through the `digest::Digest` trait): the
/// 20-byte SHA-1 digest of the input, depending on the bytes alone.
#[verifier::external_body]
pub(crate) fn sha1_digest(data: &[u8]) -> (r: Vec<u8>)
    ensures
        r@ == sha1_of(data@),
        r@.len() == 20,
{
    let digest = <sha1::Sha1 as sha1::Digest>::digest(data);
    digest.to_vec()
}

} // verus!
