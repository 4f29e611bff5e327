use compressor::huffman::frequency::Frequencies;

#[test]
fn get_frequencies_empty_input() {
    let input: Vec<u8> = Vec::new();
    let output = Frequencies::from_input(&input);
    let expected = Frequencies::new();

    assert_eq!(output, expected);
}

#[test]
fn get_frequencies_single_byte() {
    let input = vec![42u8];
    let output = Frequencies::from_input(&input);

    let mut expected = Frequencies::new();
    expected.count_byte(42);

    assert_eq!(output, expected);
}

#[test]
fn get_frequencies_all_bytes_once() {
    let input: Vec<u8> = (0u8..=255u8).collect();
    let output = Frequencies::from_input(&input);

    let mut expected = Frequencies::new();
    for byte in 0u8..=255u8 {
        expected.count_byte(byte);
    }

    assert_eq!(output, expected);
}

#[test]
fn get_frequencies_repeated_pattern() {
    let input = b"abcabcabcabc".to_vec();
    let output = Frequencies::from_input(&input);

    let mut expected = Frequencies::new();
    for _ in 0..4 {
        expected.count_byte(b'a');
        expected.count_byte(b'b');
        expected.count_byte(b'c');
    }

    assert_eq!(output, expected);
}

#[test]
fn get_frequencies_large_input() {
    let input = vec![b'x'; 20_000];
    let output = Frequencies::from_input(&input);

    let mut expected = Frequencies::new();
    for _ in 0..20_000 {
        expected.count_byte(b'x');
    }

    assert_eq!(output, expected);
}

#[test]
fn get_frequencies_binary_data() {
    let input = vec![0, 255, 0, 128, 255, 128];
    let output = Frequencies::from_input(&input);

    let mut expected = Frequencies::new();
    expected.count_byte(0);
    expected.count_byte(0);
    expected.count_byte(128);
    expected.count_byte(128);
    expected.count_byte(255);
    expected.count_byte(255);

    assert_eq!(output, expected);
}

#[test]
fn get_frequencies_whitespace_and_newlines() {
    let input = b" \n\t\n ".to_vec();
    let output = Frequencies::from_input(&input);

    let mut expected = Frequencies::new();
    expected.count_byte(b' ');
    expected.count_byte(b' ');
    expected.count_byte(b'\n');
    expected.count_byte(b'\n');
    expected.count_byte(b'\t');

    assert_eq!(output, expected);
}
