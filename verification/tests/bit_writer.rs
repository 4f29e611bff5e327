use compressor::huffman::bit_writer::BitWriter;

#[test]
fn write_single_bit() {
    let mut writer = BitWriter::new();
    writer.write_bit(true);
    writer.flush();
    let expected = vec![128];

    assert_eq!(writer.into_inner(), expected);
}

#[test]
fn write_true_and_false() {
    let mut writer = BitWriter::new();
    writer.write_bit(false);
    writer.write_bit(true);
    writer.flush();
    let expected = vec![64];

    assert_eq!(writer.into_inner(), expected);
}

#[test]
fn write_bit_overflow_byte() {
    let mut writer = BitWriter::new();
    for _ in 0..9 {
        writer.write_bit(true);
    }

    writer.flush();
    let expected = vec![255, 128];

    assert_eq!(writer.into_inner(), expected);
}

#[test]
fn write_bits_overflow_byte() {
    let mut writer = BitWriter::new();
    writer.write_bits(256, 16);
    writer.flush();
    let expected = vec![1, 0];

    assert_eq!(writer.into_inner(), expected);
}
