//! A verified byte-oriented Huffman compressor.
//!
//! The container format, the canonical code construction and the bit packing
//! are specified and proved in the `huffman` module; the crate root offers the
//! two drivers, `compress` and `decompress`.

pub mod huffman;

use vstd::prelude::*;
use crate::huffman::decoder::spec_decompress;
use crate::huffman::{code_depth_ok, spec_compress, CodecError};

verus! {

/// Compresses `input`; see `huffman::compress`.
pub fn compress(input: &Vec<u8>) -> (r: Result<Vec<u8>, CodecError>)
    ensures
        match r {
            Ok(out) => (input@.len() == 0 || code_depth_ok(input@)) && out@ == spec_compress(
                input@,
            ),
            Err(e) => e == CodecError::CodeTooLong && input@.len() > 0 && !code_depth_ok(input@),
        },
{
    huffman::compress(input)
}

/// Decompresses `input` into `output_len` bytes; see
/// `huffman::decoder::decompress`.
pub fn decompress(input: &Vec<u8>, output_len: usize) -> (r: Result<Vec<u8>, CodecError>)
    ensures
        match r {
            Ok(out) => spec_decompress(input@, output_len as nat) == Ok::<Seq<u8>, CodecError>(
                out@,
            ),
            Err(e) => spec_decompress(input@, output_len as nat) == Err::<Seq<u8>, CodecError>(e),
        },
{
    huffman::decoder::decompress(input, output_len)
}

} // verus!
