//! Block-compression codec used to serialize snapshots.
//!
//! Compression is delegated to the LZ4 block format with the uncompressed
//! length prepended; the two spec names below stand for the exact byte
//! functions the outside library computes.

use vstd::prelude::*;

use crate::errors::CodecError;

verus! {

/// Compressed image of a byte payload under the block codec (size prefix
/// included): a function of the payload alone.
pub uninterp spec fn lz4_of(data: Seq<u8>) -> Seq<u8>;

/// Outcome of decoding a byte sequence as a size-prefixed compressed block:
/// the payload when the block is well formed, `None` otherwise.
pub uninterp spec fn unlz4_of(data: Seq<u8>) -> Option<Seq<u8>>;

/// Longest payload the block format accepts (`LZ4_MAX_INPUT_SIZE`).
pub const MAX_PAYLOAD: usize = 0x7E00_0000;

/// Relies on `lz4::block::compress` with `prepend_size`: deterministic
/// compression that `lz4::block::decompress` inverts, failing exactly on
/// payloads longer than `LZ4_MAX_INPUT_SIZE`.
#[verifier::external_body]
fn lz4_compress(data: &[u8]) -> (r: Option<Vec<u8>>)
    ensures
        r matches Some(c) ==> c@ == lz4_of(data@) && unlz4_of(c@) == Some(data@),
        r is Some <==> data@.len() <= MAX_PAYLOAD,
{
    lz4::block::compress(data, None, true).ok()
}

/// Relies on `lz4::block::decompress` reading the prepended size: returns
/// the original payload exactly when the block is well formed.
#[verifier::external_body]
fn lz4_decompress(data: &[u8]) -> (r: Option<Vec<u8>>)
    ensures
        r matches Some(v) ==> unlz4_of(data@) == Some(v@),
        r is Some <==> unlz4_of(data@) is Some,
{
    lz4::block::decompress(data, None).ok()
}

/// Deterministic block compression of an arbitrary byte payload.
///
/// Succeeds on every payload the block format can carry; decompressing the
/// result recovers the payload exactly.
pub fn compress_raw(data: &[u8]) -> (r: Result<Vec<u8>, CodecError>)
    ensures
        r matches Ok(c) ==> c@ == lz4_of(data@) && unlz4_of(c@) == Some(data@),
        r is Ok <==> data@.len() <= MAX_PAYLOAD,
        r matches Err(e) ==> e == CodecError::FormatError,
{
    match lz4_compress(data) {
        Some(c) => Ok(c),
        None => Err(CodecError::FormatError),
    }
}

/// Decompression of a size-prefixed compressed block.
///
/// Returns the original payload exactly when the input is a well-formed
/// block, and `FormatError` otherwise; it never panics.
pub fn decompress_raw(data: &[u8]) -> (r: Result<Vec<u8>, CodecError>)
    ensures
        r matches Ok(v) ==> unlz4_of(data@) == Some(v@),
        r is Ok <==> unlz4_of(data@) is Some,
        r matches Err(e) ==> e == CodecError::FormatError,
{
    match lz4_decompress(data) {
        Some(v) => Ok(v),
        None => Err(CodecError::FormatError),
    }
}

} // verus!
