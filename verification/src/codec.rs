//! The general-purpose compressors behind tiles, directories and metadata.

use std::io::{Cursor, Read, Write};

use vstd::prelude::*;

verus! {

/// The gzip stream that `flate2` makes of `data` at its fast level.
pub uninterp spec fn gzip_of(data: Seq<u8>) -> Seq<u8>;

/// What `flate2` reads from the first gzip member in `data`, or the text of
/// the error it reports.
pub uninterp spec fn gunzip_of(data: Seq<u8>) -> Result<Seq<u8>, Seq<char>>;

/// The brotli stream that `brotli` makes of `data` at quality 5, or the text
/// of the error it reports.
pub uninterp spec fn brotli_of(data: Seq<u8>) -> Result<Seq<u8>, Seq<char>>;

/// What `brotli` reads from the stream `data`, or the text of the error it
/// reports.
pub uninterp spec fn unbrotli_of(data: Seq<u8>) -> Result<Seq<u8>, Seq<char>>;

/// The result of a codec, with its bytes and its text as sequences.
pub open spec fn codec_view(r: Result<Vec<u8>, String>) -> Result<Seq<u8>, Seq<char>> {
    match r {
        Ok(v) => Ok(v@),
        Err(e) => Err(e@),
    }
}

/// The result of a decoder that gave the bytes `data`.
pub open spec fn decoded(data: Seq<u8>) -> Result<Seq<u8>, Seq<char>> {
    Ok(data)
}

/// Calls `flate2::write::GzEncoder` with the fast level over a `Vec`.
///
/// Claimed: the stream depends on the input alone, and `GzDecoder` reads the
/// input back from it. Writing into a `Vec` never fails, so neither does this.
#[verifier::external_body]
pub(crate) fn gzip(data: &[u8]) -> (out: Vec<u8>)
    ensures
        out@ == gzip_of(data@),
        gunzip_of(out@) == decoded(data@),
{
    let mut enc = flate2::write::GzEncoder::new(Vec::new(), flate2::Compression::fast());
    enc.write_all(data).unwrap();
    enc.finish().unwrap()
}

/// Calls `flate2::read::GzDecoder` and reads to the end.
///
/// Claimed: the bytes, or the text of the error, depend on the input alone.
#[verifier::external_body]
pub(crate) fn gunzip(data: &[u8]) -> (r: Result<Vec<u8>, String>)
    ensures
        codec_view(r) == gunzip_of(data@),
{
    let mut out = Vec::new();
    match flate2::read::GzDecoder::new(Cursor::new(data)).read_to_end(&mut out) {
        Ok(_) => Ok(out),
        Err(e) => Err(e.to_string()),
    }
}

/// Calls `brotli::BrotliCompress` with quality 5 and the other parameters at
/// their defaults.
///
/// Claimed: the stream, or the text of the error, depends on the input alone,
/// and `BrotliDecompress` reads the input back from the stream.
#[verifier::external_body]
pub(crate) fn brotli_compress(data: &[u8]) -> (r: Result<Vec<u8>, String>)
    ensures
        codec_view(r) == brotli_of(data@),
        r matches Ok(out) ==> unbrotli_of(out@) == decoded(data@),
{
    let params = brotli::enc::BrotliEncoderParams { quality: 5, ..Default::default() };
    let mut out = Vec::new();
    match brotli::BrotliCompress(&mut Cursor::new(data), &mut out, &params) {
        Ok(_) => Ok(out),
        Err(e) => Err(e.to_string()),
    }
}

/// Calls `brotli::BrotliDecompress`.
///
/// Claimed: the bytes, or the text of the error, depend on the input alone.
#[verifier::external_body]
pub(crate) fn brotli_decompress(data: &[u8]) -> (r: Result<Vec<u8>, String>)
    ensures
        codec_view(r) == unbrotli_of(data@),
{
    let mut out = Vec::new();
    match brotli::BrotliDecompress(&mut Cursor::new(data), &mut out) {
        Ok(_) => Ok(out),
        Err(e) => Err(e.to_string()),
    }
}

} // verus!
