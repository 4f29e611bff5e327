use compressor::huffman::bit_writer::BitWriter;
use compressor::huffman::frequency::Frequencies;

fn encode_bytes(input: &[u8]) -> Vec<u8> {
    let input = input.to_vec();
    let byte_map = Frequencies::from_input(&input).to_huff_tree().to_byte_map();

    let mut output = BitWriter::new();
    byte_map.encode(&input, &mut output);
    output.into_inner()
}

#[test]
fn encode_single_byte() {
    let inner_vec = encode_bytes(b"3");

    // 1 code => 0x0001
    // '3' => len 1
    // data: 1 bit => 1000_0000
    let expected = [
        0, 1, // code count (u16 BE)
        b'3', 1,   // (byte, length)
        128, // encoded data
    ];

    assert_eq!(inner_vec, expected);
}

#[test]
fn encode_single_symbol_many_bytes() {
    let inner_vec = encode_bytes(&[50; 64]);

    // 64 bits of '1' => 8 full bytes of 0xFF
    let mut expected = vec![0xFF; 12];

    expected[0] = 0; // code count high byte
    expected[1] = 1; // code count low byte
    expected[2] = 50; // symbol
    expected[3] = 1; // code length

    assert_eq!(inner_vec, expected);
}

#[test]
fn encode_alternating_symbols() {
    let inner_vec = encode_bytes(b"abababab");

    // Codes:
    // a -> 0
    // b -> 1
    //
    // bits: 01010101 = 0x55
    let expected = [
        0, 2, // code count
        97, 1, // 'a'
        98, 1,  // 'b'
        85, // data
    ];

    assert_eq!(inner_vec, expected);
}

#[test]
fn encode_varying_frequencies() {
    let inner_vec = encode_bytes(b"aaaabc");

    // Canonical codes:
    // a -> 0   (len 1)
    // b -> 10  (len 2)
    // c -> 11  (len 2)
    //
    // bits: a a a a b  c
    //       0 0 0 0 10 11 => 0000_1011 = 11
    let expected = [
        0, 3, // code count
        97, 1, // 'a'
        98, 2, // 'b'
        99, 2,  // 'c'
        11, // encoded data
    ];

    assert_eq!(inner_vec, expected);
}
