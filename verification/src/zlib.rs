//! Compression at rest: objects are stored as zlib streams.

use vstd::prelude::*;
use std::io::Read;
use std::io::Write;
use crate::error::ObjectError;

verus! {

/// What the zlib decoder of the `flate2` crate reads from `data`; `None`
/// where it reports an error, as it does for bytes that are no complete
/// zlib stream.
pub uninterp spec fn zlib_inflated(data: Seq<u8>) -> Option<Seq<u8>>;

/// The error of std's readers and writers.
#[verifier::external_type_specification]
#[verifier::external_body]
pub struct ExIoError(std::io::Error);

/// Runs `flate2::read::ZlibDecoder` over `data` to its end. Trusted: the
/// outcome is a function of `data` alone, here given the name
/// `zlib_inflated`; nothing that was read before an error is returned.
#[verifier::external_body]
fn zlib_inflate(data: &[u8]) -> (res: Result<Vec<u8>, std::io::Error>)
    ensures
        match res {
            Ok(v) => zlib_inflated(data@) == Some(v@),
            Err(_) => zlib_inflated(data@) is None,
        },
{
    let mut out = Vec::new();
    flate2::read::ZlibDecoder::new(data).read_to_end(&mut out)?;
    Ok(out)
}

/// Runs `flate2::write::ZlibEncoder` at the default level over `data` and
/// finishes the stream. Trusted: it succeeds, and what it returns
/// decompresses to `data`. It writes into a `Vec`, which refuses nothing,
/// and the compressor fails only on parameters that are not used here.
#[verifier::external_body]
fn zlib_deflate(data: &[u8]) -> (res: Result<Vec<u8>, std::io::Error>)
    ensures
        res is Ok,
        res matches Ok(v) ==> zlib_inflated(v@) == Some(data@),
{
    let mut encoder = flate2::write::ZlibEncoder::new(Vec::new(), flate2::Compression::default());
    encoder.write_all(data)?;
    encoder.finish()
}

/// Compresses `bytes` for storage. What comes back decompresses to `bytes`.
pub fn compress(bytes: &[u8]) -> (res: Vec<u8>)
    ensures
        zlib_inflated(res@) == Some(bytes@),
{
    zlib_deflate(bytes).unwrap()
}

/// Decompresses stored bytes. Bytes that are no complete zlib stream are
/// refused as corrupt; nothing partial is returned.
pub fn decompress(bytes: &[u8]) -> (res: Result<Vec<u8>, ObjectError>)
    ensures
        match res {
            Ok(v) => zlib_inflated(bytes@) == Some(v@),
            Err(e) => e == ObjectError::CorruptObject && zlib_inflated(bytes@) is None,
        },
{
    match zlib_inflate(bytes) {
        Ok(v) => Ok(v),
        Err(_) => Err(ObjectError::CorruptObject),
    }
}

} // verus!
