use vstd::prelude::*;

use crate::frame::FrameError;

verus! {

/// What zstd makes of `input` at compression level `level`.
pub uninterp spec fn zstd_compressed(input: Seq<u8>, level: i32) -> Seq<u8>;

/// What zstd restores from the compressed bytes `input`.
pub uninterp spec fn zstd_decompressed(input: Seq<u8>) -> Seq<u8>;

/// Relies on `zstd::stream::encode_all`: the compressed form of the input
/// at the given level, which zstd clamps to its supported range, so reading
/// from memory it does not fail.
#[verifier::external_body]
pub fn zstd_compress(input: &[u8], level: i32) -> (r: Result<Vec<u8>, FrameError>)
    ensures
        r matches Ok(v) ==> v@ == zstd_compressed(input@, level),
        r is Ok,
{
    match zstd::stream::encode_all(std::io::Cursor::new(input), level) {
        Ok(v) => Ok(v),
        Err(_) => Err(FrameError::PayloadTransformFailure),
    }
}

/// Relies on `zstd::stream::decode_all`: the bytes the compressed input
/// stands for, or an error when it is not valid zstd data. What compression
/// made of some bytes decompresses to those bytes.
#[verifier::external_body]
pub fn zstd_decompress(input: &[u8]) -> (r: Result<Vec<u8>, FrameError>)
    ensures
        r matches Ok(v) ==> v@ == zstd_decompressed(input@),
        r matches Err(e) ==> e == FrameError::PayloadTransformFailure,
        r is Err ==> forall|x: Seq<u8>, level: i32| #[trigger] zstd_compressed(x, level) != input@,
        r matches Ok(v) ==> forall|x: Seq<u8>, level: i32|
            #[trigger] zstd_compressed(x, level) == input@ ==> v@ == x,
{
    match zstd::stream::decode_all(std::io::Cursor::new(input)) {
        Ok(v) => Ok(v),
        Err(_) => Err(FrameError::PayloadTransformFailure),
    }
}

} // verus!
