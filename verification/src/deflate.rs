//! Compression of the persisted bytes as a DEFLATE stream.

use vstd::prelude::*;
use crate::error::CanvasError;

verus! {

/// The error that the compression library reports.
#[verifier::external_type_specification]
#[verifier::external_body]
pub struct ExIoError(std::io::Error);

/// The DEFLATE stream that the encoder makes of `raw`, or nothing where
/// the encoder reports an error.
pub uninterp spec fn deflated(raw: Seq<u8>) -> Option<Seq<u8>>;

/// The bytes that a DEFLATE stream `data` decompresses to, or nothing
/// where `data` is not a DEFLATE stream.
pub uninterp spec fn inflated(data: Seq<u8>) -> Option<Seq<u8>>;

/// Calls `libflate::deflate::Encoder::new` on an empty vector, writes
/// `raw` to it and calls `finish`. The encoder works on `raw` alone, so
/// what it returns is named by `deflated`; the stream it returns
/// decompresses to `raw`.
#[verifier::external_body]
fn deflate(raw: &Vec<u8>) -> (r: Result<Vec<u8>, std::io::Error>)
    ensures
        match r {
            Ok(data) => deflated(raw@) == Some(data@) && inflated(data@) == Some(raw@),
            Err(_) => deflated(raw@) is None,
        },
{
    let mut encoder = libflate::deflate::Encoder::new(Vec::new());
    std::io::Write::write_all(&mut encoder, &raw[..])?;
    encoder.finish().into_result()
}

/// Calls `libflate::deflate::Decoder::new` on `data` and reads it to the
/// end: the bytes read are what the stream decompresses to, and an error
/// says that `data` is not a complete DEFLATE stream.
#[verifier::external_body]
fn inflate(data: &Vec<u8>) -> (r: Result<Vec<u8>, std::io::Error>)
    ensures
        match r {
            Ok(raw) => inflated(data@) == Some(raw@),
            Err(_) => inflated(data@) is None,
        },
{
    let mut decoder = libflate::deflate::Decoder::new(&data[..]);
    let mut raw = Vec::new();
    std::io::Read::read_to_end(&mut decoder, &mut raw)?;
    Ok(raw)
}

/// What compressing gave, as the library's own result.
pub fn compressed(outcome: Result<Vec<u8>, std::io::Error>) -> (r: Result<Vec<u8>, CanvasError>)
    ensures
        match outcome {
            Ok(data) => r == Ok::<Vec<u8>, CanvasError>(data),
            Err(_) => r == Err::<Vec<u8>, CanvasError>(CanvasError::EncodeFailure),
        },
{
    match outcome {
        Ok(data) => Ok(data),
        Err(_) => Err(CanvasError::EncodeFailure),
    }
}

/// What decompressing gave, as the library's own result.
pub fn decompressed(outcome: Result<Vec<u8>, std::io::Error>) -> (r: Result<Vec<u8>, CanvasError>)
    ensures
        match outcome {
            Ok(raw) => r == Ok::<Vec<u8>, CanvasError>(raw),
            Err(_) => r == Err::<Vec<u8>, CanvasError>(CanvasError::DecodeFailure),
        },
{
    match outcome {
        Ok(raw) => Ok(raw),
        Err(_) => Err(CanvasError::DecodeFailure),
    }
}

/// Compresses `raw`: the stream that the encoder makes of it, which
/// decompresses to `raw`; refused only where the encoder reports an
/// error.
pub fn compress(raw: &Vec<u8>) -> (r: Result<Vec<u8>, CanvasError>)
    ensures
        match deflated(raw@) {
            Some(data) => r matches Ok(out) && out@ == data && inflated(out@) == Some(raw@),
            None => r matches Err(e) && e == CanvasError::EncodeFailure,
        },
{
    compressed(deflate(raw))
}

/// Decompresses `data`, which is refused where it is not a complete
/// DEFLATE stream.
pub fn decompress(data: &Vec<u8>) -> (r: Result<Vec<u8>, CanvasError>)
    ensures
        match inflated(data@) {
            Some(raw) => r matches Ok(out) && out@ == raw,
            None => r matches Err(e) && e == CanvasError::DecodeFailure,
        },
{
    decompressed(inflate(data))
}

} // verus!
