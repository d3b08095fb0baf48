//! Trusted boundary to the block compressor.
//!
//! Each chunk is compressed as one self-contained LZ4 block, with no
//! shared state between blocks, so any block can be decompressed in
//! isolation. The two functions of `lz4_flex` that the library calls are
//! wrapped here; everything else is proved against these contracts.

use vstd::prelude::*;

verus! {

/// The LZ4 block that `lz4_flex::block::compress` produces for the given
/// bytes. A function of the input alone: the encoder is deterministic.
pub uninterp spec fn lz4_compress(data: Seq<u8>) -> Seq<u8>;

/// What decompressing the given bytes as one LZ4 block yields: the
/// decompressed bytes, or nothing when the block is malformed. A function
/// of the input alone: the decoder is deterministic.
pub uninterp spec fn lz4_decompress(data: Seq<u8>) -> Option<Seq<u8>>;

/// Relies on `lz4_flex::block::compress`: it emits one self-contained LZ4
/// block, computed from the input bytes alone; `decompress_into` on that
/// block yields the input back (the crate's round trip); and the block is
/// never longer than `get_maximum_output_size(input.len())`, which is
/// `20 + input.len() * 110 / 100`. The input is at most one chunk, far
/// inside the sizes the encoder handles.
#[verifier::external_body]
pub(crate) fn compress_chunk(data: &[u8]) -> (r: Vec<u8>)
    requires
        data@.len() <= 0x100_0000,
    ensures
        r@ == lz4_compress(data@),
        lz4_decompress(r@) == Some(data@),
        r@.len() <= 20 + data@.len() * 110 / 100,
{
    lz4_flex::block::compress(data)
}

/// Relies on `lz4_flex::block::decompress_into` (the safe, checked
/// decoder of the crate's default features): it fills the buffer from the
/// start, returns how many bytes it wrote, and reports malformed input or
/// a too-small buffer as an error, never as a panic.
#[verifier::external_body]
pub(crate) fn decompress_chunk(data: &[u8], max_len: usize) -> (r: Option<Vec<u8>>)
    ensures
        r is Some <==> (lz4_decompress(data@) is Some && lz4_decompress(data@)->0.len()
            <= max_len),
        r is Some ==> r->0@ == lz4_decompress(data@)->0,
{
    let mut buf = vec![0u8; max_len];
    match lz4_flex::block::decompress_into(data, &mut buf) {
        Ok(n) => {
            buf.truncate(n);
            Some(buf)
        },
        Err(_) => None,
    }
}

} // verus!
