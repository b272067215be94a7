//! Compression at the storage boundary. Individual objects are held on disk
//! as zlib streams; the streams themselves come from an outside compressor
//! whose behaviour is named, not restated.
use vstd::prelude::*;
use std::io::Read;

verus! {

/// The zlib stream that compressing `s` at this library's fixed level
/// produces.
pub uninterp spec fn deflate_of(s: Seq<u8>) -> Seq<u8>;

/// What decompressing `s` yields: the original bytes for a valid stream,
/// nothing for a corrupt one.
pub uninterp spec fn inflate_of(s: Seq<u8>) -> Option<Seq<u8>>;

/// Relies on flate2's `read::ZlibEncoder`: compression at a fixed level is a
/// function of the input bytes alone, and its output decompresses back to
/// exactly the input. Reading from an in-memory slice cannot fail.
#[verifier::external_body]
pub(crate) fn zlib_compress(data: &Vec<u8>) -> (r: Vec<u8>)
    ensures
        r@ == deflate_of(data@),
        inflate_of(r@) == Some(data@),
{
    let mut out = Vec::new();
    let mut enc = flate2::read::ZlibEncoder::new(&data[..], flate2::Compression::default());
    enc.read_to_end(&mut out).expect("reading a compressed in-memory slice cannot fail");
    out
}

/// Relies on flate2's `read::ZlibDecoder`: decompression is a function of the
/// input bytes alone; a malformed stream reports an error instead.
#[verifier::external_body]
pub(crate) fn zlib_decompress(data: &Vec<u8>) -> (r: Option<Vec<u8>>)
    ensures
        match r {
            Some(v) => inflate_of(data@) == Some(v@),
            None => inflate_of(data@) is None,
        },
{
    let mut out = Vec::new();
    let mut dec = flate2::read::ZlibDecoder::new(&data[..]);
    match dec.read_to_end(&mut out) {
        Ok(_) => Some(out),
        Err(_) => None,
    }
}

} // verus!
