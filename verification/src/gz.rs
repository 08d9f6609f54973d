//! Decompression of the gzip archive in which the dictionary is published.
use std::io::Read;

use vstd::prelude::*;

verus! {

/// The bytes that the first gzip member of `data` decompresses to, or
/// nothing where `data` does not start with a valid gzip member.
pub uninterp spec fn gzip_decoded(data: Seq<u8>) -> Option<Seq<u8>>;

/// Decompresses the first gzip member of `data` with
/// `flate2::read::GzDecoder` and `Read::read_to_end`.
///
/// Trusted: the result is taken to be `gzip_decoded(data)`, a function of the
/// bytes alone; what the decoder computes is not stated here.
#[verifier::external_body]
fn gz_decode(data: &[u8]) -> (r: Option<Vec<u8>>)
    ensures
        match r {
            Some(v) => gzip_decoded(data@) == Some(v@),
            None => gzip_decoded(data@) is None,
        },
{
    let mut out = Vec::new();
    match flate2::read::GzDecoder::new(data).read_to_end(&mut out) {
        Ok(_) => Some(out),
        Err(_) => None,
    }
}

/// The archive is not valid gzip data.
#[derive(Debug, PartialEq, Eq)]
pub struct DecompressError;

/// Decompresses a gzip archive (the dictionary as downloaded).
pub fn decompress(gz: &[u8]) -> (r: Result<Vec<u8>, DecompressError>)
    ensures
        match r {
            Ok(v) => gzip_decoded(gz@) == Some(v@),
            Err(_) => gzip_decoded(gz@) is None,
        },
{
    match gz_decode(gz) {
        Some(v) => Ok(v),
        None => Err(DecompressError),
    }
}

} // verus!
