//! Reversible stream compression for stored objects, through flate2's
//! zlib encoder and decoder.

use vstd::prelude::*;
use crate::error::StoreError;
use std::io::Read;
use std::io::Write;
use flate2::Compression;
use flate2::read::ZlibDecoder;
use flate2::write::ZlibEncoder;

verus! {

/// The zlib stream the encoder produces for a byte sequence at the default
/// compression level.  The value is determined by the input bytes alone.
pub uninterp spec fn zlib_of(bytes: Seq<u8>) -> Seq<u8>;

/// Relies on flate2's `ZlibEncoder`: at a fixed compression level the
/// produced stream is a pure function of the input bytes.
#[verifier::external_body]
pub(crate) fn zlib_compress(b: &Vec<u8>) -> (r: Vec<u8>)
    ensures
        r@ == zlib_of(b@),
{
    let mut encoder = ZlibEncoder::new(Vec::new(), Compression::default());
    // Writing into a Vec sink cannot fail.
    match encoder.write_all(b.as_slice()) {
        Ok(()) => {},
        Err(_) => return Vec::new(),
    }
    match encoder.finish() {
        Ok(out) => out,
        Err(_) => Vec::new(),
    }
}

/// Relies on flate2's `ZlibDecoder`: decoding a stream the encoder produced
/// yields exactly the bytes that were encoded; other inputs may be rejected.
#[verifier::external_body]
pub(crate) fn zlib_decompress(b: &Vec<u8>) -> (r: Result<Vec<u8>, StoreError>)
    ensures
        r matches Err(e) ==> e == StoreError::Malformed,
        (exists|s: Seq<u8>| b@ == #[trigger] zlib_of(s)) ==> r is Ok,
        r matches Ok(d) ==> (forall|s: Seq<u8>| b@ == #[trigger] zlib_of(s) ==> d@ == s),
{
    let mut decoder = ZlibDecoder::new(b.as_slice());
    let mut out = Vec::new();
    match decoder.read_to_end(&mut out) {
        Ok(_) => Ok(out),
        Err(_) => Err(StoreError::Malformed),
    }
}

} // verus!
