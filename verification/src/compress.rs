//! Per-packet zlib compression, supplied by the flate2 crate behind two
//! trusted wrappers. The byte streams the crate produces are named rather
//! than written out: nothing short of the deflate algorithm itself would
//! state them.

use vstd::prelude::*;

verus! {

/// The zlib stream that compressing `data` at this library's fixed
/// compression level produces.
pub uninterp spec fn deflate_of(data: Seq<u8>) -> Seq<u8>;

/// What decompressing a byte sequence as a zlib stream yields: the inflated
/// bytes, or nothing when the sequence is not a well-formed stream.
pub uninterp spec fn inflate_of(data: Seq<u8>) -> Option<Seq<u8>>;

/// Relies on flate2::bufread::ZlibEncoder (level 4, default backend):
/// compressing in-memory bytes cannot fail, and decompressing its output
/// restores the input.
#[verifier::external_body]
pub(crate) fn zlib_compress(data: &[u8]) -> (r: Vec<u8>)
    ensures
        r@ == deflate_of(data@),
        inflate_of(r@) == Some(data@),
{
    let mut z = flate2::bufread::ZlibEncoder::new(data, flate2::Compression::new(4));
    let mut out = Vec::new();
    std::io::Read::read_to_end(&mut z, &mut out).expect("reading from memory cannot fail");
    out
}

/// Relies on flate2::bufread::ZlibDecoder: inflates a zlib stream, failing
/// on input that is not one.
#[verifier::external_body]
pub(crate) fn zlib_decompress(data: &[u8]) -> (r: Option<Vec<u8>>)
    ensures
        match r {
            Some(v) => inflate_of(data@) == Some(v@),
            None => inflate_of(data@) is None,
        },
{
    let mut z = flate2::bufread::ZlibDecoder::new(data);
    let mut out = Vec::new();
    match std::io::Read::read_to_end(&mut z, &mut out) {
        Ok(_) => Some(out),
        Err(_) => None,
    }
}

} // verus!
