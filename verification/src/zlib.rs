//! Zlib compression and decompression, through the `flate2` crate.
//!
//! The two results are given names: `deflate_of` for the compressed form
//! and `inflate_of` for what a zlib stream decompresses to.  A zlib stream
//! is self-terminating, so decompression also has a well-defined consumed
//! length, named `inflate_len_of`; pack entries rely on it because a
//! compressed payload is followed by further pack bytes.

use vstd::prelude::*;

verus! {

pub uninterp spec fn deflate_of(s: Seq<u8>) -> Seq<u8>;

pub uninterp spec fn inflate_of(s: Seq<u8>) -> Option<Seq<u8>>;

pub uninterp spec fn inflate_len_of(s: Seq<u8>) -> nat;

/// Relies on flate2's `write::ZlibEncoder`: it emits one complete zlib
/// stream for the input, and `read::ZlibDecoder` recovers exactly the
/// input from that stream (DEFLATE is lossless and the stream carries its
/// own end marker).  Writing into a `Vec` sink cannot fail.
#[verifier::external_body]
pub(crate) fn compress_zlib(data: &[u8]) -> (r: Vec<u8>)
    ensures
        r@ == deflate_of(data@),
        inflate_of(r@) == Some(data@),
        inflate_len_of(r@) == r@.len(),
        r@.len() >= 1,
{
    let mut encoder =
        flate2::write::ZlibEncoder::new(Vec::new(), flate2::Compression::default());
    let _ = std::io::Write::write_all(&mut encoder, data);
    encoder.finish().expect("writing into a Vec sink cannot fail")
}

/// Relies on flate2's `read::ZlibDecoder`: `read_to_end` succeeds exactly
/// when the input begins with a well-formed zlib stream, yields the
/// decompressed bytes of that stream, and `total_in` reports how many
/// input bytes the stream occupied (trailing bytes are left unread).
#[verifier::external_body]
pub(crate) fn decompress_zlib_prefix(data: &[u8]) -> (r: Option<(Vec<u8>, usize)>)
    ensures
        r is Some <==> inflate_of(data@) is Some,
        r matches Some(p) ==> {
            &&& p.0@ == inflate_of(data@)->0
            &&& p.1 as nat == inflate_len_of(data@)
            &&& 1 <= p.1 <= data@.len()
        },
{
    let mut decoder = flate2::read::ZlibDecoder::new(data);
    let mut out = Vec::new();
    match std::io::Read::read_to_end(&mut decoder, &mut out) {
        Ok(_) => {
            let used = decoder.total_in() as usize;
            if 1 <= used && used <= data.len() {
                Some((out, used))
            } else {
                None
            }
        },
        Err(_) => None,
    }
}

/// Decompresses the zlib stream at the start of `data`, dropping the
/// consumed length.
pub fn decompress_zlib(data: &[u8]) -> (r: Option<Vec<u8>>)
    ensures
        r is Some <==> inflate_of(data@) is Some,
        r is Some ==> r->0@ == inflate_of(data@)->0,
{
    match decompress_zlib_prefix(data) {
        Some((out, _used)) => Some(out),
        None => None,
    }
}

} // verus!
