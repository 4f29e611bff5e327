use compressor::huffman::decoder::decompress;
use compressor::huffman::CodecError;
use compressor::{compress, decompress as lib_decompress};

#[test]
fn decompress_empty_input_zero_length() {
    let empty: Vec<u8> = Vec::new();
    assert_eq!(decompress(&empty, 0), Ok(Vec::new()));
}

#[test]
fn decompress_empty_input_nonzero_length_is_corrupt() {
    let empty: Vec<u8> = Vec::new();
    assert_eq!(decompress(&empty, 5), Err(CodecError::CorruptData));
}

#[test]
fn decompress_truncated_header_is_corrupt() {
    assert_eq!(decompress(&vec![0], 1), Err(CodecError::CorruptData));
    assert_eq!(decompress(&vec![0, 1, b'a'], 1), Err(CodecError::CorruptData));
}

#[test]
fn decompress_zero_symbol_count_is_corrupt() {
    assert_eq!(decompress(&vec![0, 0, 7], 1), Err(CodecError::CorruptData));
}

#[test]
fn decompress_zero_code_length_is_corrupt() {
    let input = vec![0, 2, b'a', 0, b'b', 1, 0b0100_0000];
    assert_eq!(decompress(&input, 2), Err(CodecError::CorruptData));
}

#[test]
fn decompress_unsorted_lengths_are_corrupt() {
    let input = vec![0, 2, b'a', 2, b'b', 1, 0];
    assert_eq!(decompress(&input, 1), Err(CodecError::CorruptData));
}

#[test]
fn decompress_overlong_code_is_rejected() {
    let input = vec![0, 1, b'a', 90, 128];
    assert_eq!(decompress(&input, 1), Err(CodecError::CodeTooLong));
}

#[test]
fn decompress_invalid_kraft_sum_is_corrupt() {
    // three codes of length 1 cannot form a prefix code
    let input = vec![0, 3, b'a', 1, b'b', 1, b'c', 1, 0];
    assert_eq!(decompress(&input, 1), Err(CodecError::CorruptData));
}

#[test]
fn decompress_truncated_payload_is_corrupt() {
    let compressed = compress(&b"abab".to_vec()).unwrap();
    let truncated: Vec<u8> = compressed[..compressed.len() - 1].to_vec();
    assert_eq!(decompress(&truncated, 4), Err(CodecError::CorruptData));
}

#[test]
fn decompress_single_symbol_payload() {
    // header: one entry (a, len 1); payload: four 1 bits, padded
    let input = vec![0, 1, b'a', 1, 0b1111_0000];
    assert_eq!(decompress(&input, 4), Ok(b"aaaa".to_vec()));
}

#[test]
fn decompress_two_symbol_payload() {
    // "abab" gives a=0 and b=1, payload 0101 padded into one byte
    let input = vec![0, 2, b'a', 1, b'b', 1, 0b0101_0000];
    assert_eq!(decompress(&input, 4), Ok(b"abab".to_vec()));
}

#[test]
fn decompress_canonical_two_length_payload() {
    // "aaaabc" gives a=0, b=10, c=11, payload 0000_1011
    let input = vec![0, 3, b'a', 1, b'b', 2, b'c', 2, 0b0000_1011];
    assert_eq!(decompress(&input, 6), Ok(b"aaaabc".to_vec()));
}

#[test]
fn lib_round_trip() {
    let input = b"compression must be reversible".to_vec();
    let compressed = compress(&input).unwrap();
    let restored = lib_decompress(&compressed, input.len()).unwrap();
    assert_eq!(restored, input);
}
