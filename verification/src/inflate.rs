//! Decompression of gzip and zlib streams.
//!
//! The streams are decoded by the `flate2` crate. What it yields for given
//! bytes is named here, so that contracts can speak of it; it is never
//! computed by this crate.

use flate2::read::{GzDecoder, ZlibDecoder};
use std::io::Read;
use vstd::prelude::*;

verus! {

/// What `flate2::read::GzDecoder` yields for the gzip stream `data`, read to
/// its end: the decompressed bytes, or nothing where the decoder fails.
pub uninterp spec fn gzip_decoded(data: Seq<u8>) -> Option<Seq<u8>>;

/// What `flate2::read::ZlibDecoder` yields for the zlib stream `data`, read
/// to its end: the decompressed bytes, or nothing where the decoder fails.
pub uninterp spec fn zlib_decoded(data: Seq<u8>) -> Option<Seq<u8>>;

/// Reads a `flate2::read::GzDecoder` over `data` to its end. The result is
/// what the decoder yields for these bytes, and is `None` where it reports
/// an error.
#[verifier::external_body]
pub(crate) fn gzip_decode(data: &[u8]) -> (bytes: Option<Vec<u8>>)
    ensures
        match gzip_decoded(data@) {
            Some(decoded) => bytes is Some && bytes->Some_0@ == decoded,
            None => bytes is None,
        },
{
    let mut decoded = Vec::new();
    match GzDecoder::new(data).read_to_end(&mut decoded) {
        Ok(_) => Some(decoded),
        Err(_) => None,
    }
}

/// Reads a `flate2::read::ZlibDecoder` over `data` to its end. The result is
/// what the decoder yields for these bytes, and is `None` where it reports
/// an error.
#[verifier::external_body]
pub(crate) fn zlib_decode(data: &[u8]) -> (bytes: Option<Vec<u8>>)
    ensures
        match zlib_decoded(data@) {
            Some(decoded) => bytes is Some && bytes->Some_0@ == decoded,
            None => bytes is None,
        },
{
    let mut decoded = Vec::new();
    match ZlibDecoder::new(data).read_to_end(&mut decoded) {
        Ok(_) => Some(decoded),
        Err(_) => None,
    }
}

} // verus!
