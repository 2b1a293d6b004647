use vstd::prelude::*;
use crate::errors::ServerError;

verus! {

/// The byte sequence that the compression codec produces for `raw` at this
/// library's fixed compression level.
pub uninterp spec fn compressed_of(raw: Seq<u8>) -> Seq<u8>;

/// What decompressing `data` yields: `Some(raw)` exactly when `data` is a
/// well-formed compressed stream carrying `raw`, `None` otherwise.
pub uninterp spec fn decompressed_of(data: Seq<u8>) -> Option<Seq<u8>>;

/// Relies on zstd::encode_all: compression at a fixed level is a
/// deterministic function of the input bytes, and zstd::decode_all
/// inverts it losslessly. It reads from an in-memory slice and writes to a
/// vector at the fixed valid level, so it accepts every byte sequence and
/// success is owed.
#[verifier::external_body]
fn zstd_encode(raw: &Vec<u8>) -> (r: Result<Vec<u8>, String>)
    ensures
        r is Ok,
        r matches Ok(c) ==> c@ == compressed_of(raw@),
        r matches Ok(c) ==> decompressed_of(c@) == Some(raw@),
{
    match zstd::encode_all(raw.as_slice(), 3) {
        Ok(c) => Ok(c),
        Err(e) => Err(e.to_string()),
    }
}

/// Relies on zstd::decode_all: it succeeds exactly on well-formed zstd
/// frames and returns the bytes that were compressed into the frame.
#[verifier::external_body]
fn zstd_decode(data: &Vec<u8>) -> (r: Result<Vec<u8>, String>)
    ensures
        r matches Ok(v) ==> decompressed_of(data@) == Some(v@),
        r matches Err(_) ==> decompressed_of(data@) is None,
{
    match zstd::decode_all(data.as_slice()) {
        Ok(v) => Ok(v),
        Err(e) => Err(e.to_string()),
    }
}

/// Compress `raw` into the codec's frame format. The codec accepts every
/// byte sequence: the result is always the codec's deterministic compressed
/// form of `raw`, and decoding it yields `raw` back.
pub fn encode(raw: &Vec<u8>) -> (r: Result<Vec<u8>, ServerError>)
    ensures
        r is Ok,
        r matches Ok(c) ==> c@ == compressed_of(raw@) && decompressed_of(c@) == Some(raw@),
{
    match zstd_encode(raw) {
        Ok(c) => Ok(c),
        Err(m) => {
            proof {
                assert(false);
            }
            Err(ServerError::Compression(m))
        },
    }
}

/// Decompress `data`. Succeeds exactly when `data` is a well-formed
/// compressed stream, and then returns the bytes it carries.
pub fn decode(data: &Vec<u8>) -> (r: Result<Vec<u8>, ServerError>)
    ensures
        r matches Ok(v) ==> decompressed_of(data@) == Some(v@),
        r matches Err(e) ==> decompressed_of(data@) is None && e matches ServerError::Compression(_),
{
    match zstd_decode(data) {
        Ok(v) => Ok(v),
        Err(m) => Err(ServerError::Compression(m)),
    }
}

} // verus!
