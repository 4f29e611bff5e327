use compressor::compress;
use compressor::huffman::decoder::decompress;

fn compress_bytes(input: &[u8]) -> Vec<u8> {
    compress(&input.to_vec()).expect("compression should succeed")
}

#[test]
fn compress_empty_input() {
    let output = compress_bytes(b"");

    assert!(output.is_empty());
}

#[test]
fn compress_single_byte_input() {
    let output = compress_bytes(b"a");

    let expected = vec![
        0,
        1, // number of codes
        b'a',
        1,           // code table entry
        0b1000_0000, // encoded data (padded)
    ];

    assert_eq!(output, expected);
}

#[test]
fn compress_single_repeated_symbol() {
    let output = compress_bytes(b"aaaa");

    let expected = vec![
        0,
        1, // number of codes
        b'a',
        1,           // code table entry
        0b1111_0000, // 4 bits of '1' padded
    ];

    assert_eq!(output, expected);
}

#[test]
fn compress_two_symbols_equal_frequency() {
    let output = compress_bytes(b"abab");

    let expected = vec![
        0,
        2, // number of codes
        b'a',
        1,
        b'b',
        1,
        0b0101_0000,
    ];

    assert_eq!(output, expected);
}

#[test]
fn compress_is_deterministic() {
    let input = b"the quick brown fox jumps over the lazy dog";

    let out1 = compress_bytes(input);
    let out2 = compress_bytes(input);

    assert_eq!(out1, out2, "compression must be deterministic");
}

#[test]
fn compress_many_symbols_skewed_distribution() {
    let input = b"aaaaaaaaaabbbccd";

    let output = compress_bytes(input);

    assert!(output.len() > 3, "output should contain header + data");

    let num_codes = u16::from_be_bytes([output[0], output[1]]) as usize;

    let header_size = 1 + num_codes * 2;

    assert!(
        output.len() >= header_size,
        "output should contain a full header"
    );

    let mut prev_len = 0;
    for i in 0..num_codes {
        let len = output[1 + i * 2 + 1];
        assert!(
            len >= prev_len,
            "code lengths must be sorted in non-decreasing order"
        );
        prev_len = len;
    }
}

#[test]
fn compress_all_unique_bytes() {
    let input: Vec<u8> = (0u8..=255u8).collect();
    let output = compress_bytes(&input);

    assert!(!output.is_empty(), "output should not be empty");

    let num_codes = u16::from_be_bytes([output[0], output[1]]) as usize;
    assert_eq!(num_codes, 256, "all unique bytes should produce 256 codes");
}

#[test]
fn compress_header_symbols_increase_within_length() {
    let input = b"aaaaaaaaaabbbccd";
    let output = compress_bytes(input);

    let num_codes = u16::from_be_bytes([output[0], output[1]]) as usize;
    for i in 1..num_codes {
        let prev_sym = output[2 + (i - 1) * 2];
        let prev_len = output[3 + (i - 1) * 2];
        let sym = output[2 + i * 2];
        let len = output[3 + i * 2];
        assert!(prev_len <= len);
        if prev_len == len {
            assert!(prev_sym < sym, "symbols must increase within one length");
        }
    }
}

#[test]
fn compress_output_meets_header_size_bound() {
    let inputs: Vec<Vec<u8>> = vec![
        b"a".to_vec(),
        b"abab".to_vec(),
        b"aaaaaaaaaabbbccd".to_vec(),
        (0u8..=255u8).collect(),
    ];
    for input in inputs {
        let output = compress_bytes(&input);
        let num_codes = u16::from_be_bytes([output[0], output[1]]) as usize;
        assert!(output.len() >= 1 + 2 * num_codes);
    }
}

#[test]
fn round_trip_various_inputs() {
    let inputs: Vec<Vec<u8>> = vec![
        b"".to_vec(),
        b"a".to_vec(),
        b"abab".to_vec(),
        b"aaaabc".to_vec(),
        b"the quick brown fox jumps over the lazy dog".to_vec(),
        (0u8..=255u8).collect(),
        vec![7u8; 10_000],
        vec![0, 255, 0, 128, 255, 128],
    ];
    for input in inputs {
        let compressed = compress(&input).expect("compression should succeed");
        let restored = decompress(&compressed, input.len()).expect("decompression should succeed");
        assert_eq!(restored, input);
    }
}
