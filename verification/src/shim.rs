//! The trusted boundary: whole-buffer deflate compression from flate2, and
//! std's UTF-8 validation. Each wrapper's contract is believed, not proved.

use vstd::prelude::*;
use std::io::Read;
use std::io::Write;

verus! {

/// What inflating a byte buffer yields: the decompressed stream, or nothing
/// when the buffer is not a valid deflate stream. Inflation is a pure
/// function of the bytes, so the result can be named.
pub uninterp spec fn inflate_of(b: Seq<u8>) -> Option<Seq<u8>>;

/// Relies on flate2's `write::DeflateEncoder` at the default level: deflate
/// compression is lossless, so inflating the encoder's output gives back
/// exactly the bytes that were written into it.
#[verifier::external_body]
pub(crate) fn deflate_compress(data: &Vec<u8>) -> (r: Vec<u8>)
    ensures
        inflate_of(r@) == Some(data@),
{
    let mut encoder = flate2::write::DeflateEncoder::new(
        Vec::new(),
        flate2::Compression::default(),
    );
    encoder.write_all(data).unwrap();
    encoder.finish().unwrap()
}

/// Relies on flate2's `read::DeflateDecoder`: reading it to the end yields
/// the whole decompressed stream, a function of the input bytes alone, and
/// fails exactly when the input is not a valid deflate stream.
#[verifier::external_body]
pub(crate) fn deflate_decompress(data: &Vec<u8>) -> (r: Option<Vec<u8>>)
    ensures
        match r {
            Some(out) => inflate_of(data@) == Some(out@),
            None => inflate_of(data@) is None,
        },
{
    let mut decoder = flate2::read::DeflateDecoder::new(&data[..]);
    let mut out: Vec<u8> = Vec::new();
    match decoder.read_to_end(&mut out) {
        Ok(_) => Some(out),
        Err(_) => None,
    }
}

/// Relies on std's `str::from_utf8`, which succeeds exactly on valid UTF-8.
#[verifier::external_body]
pub(crate) fn utf8_check(bytes: &[u8]) -> (r: bool)
    ensures
        r == vstd::utf8::valid_utf8(bytes@),
{
    core::str::from_utf8(bytes).is_ok()
}

} // verus!
