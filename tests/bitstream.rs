use count::bitstream::{BitReader, BitWriter};
use count::error::CompressionError;

#[test]
fn test_bit_writer_single_bit() {
    let mut writer = BitWriter::new();
    writer.write_bit(1).unwrap();
    writer.write_bit(0).unwrap();
    writer.write_bit(1).unwrap();

    let data = writer.finish();
    assert_eq!(data.len(), 1);
    assert_eq!(data[0], 0b10100000);
}

#[test]
fn test_bit_writer_multiple_bytes() {
    let mut writer = BitWriter::new();
    for i in 0..16 {
        writer.write_bit(i % 2).unwrap();
    }

    let data = writer.finish();
    assert_eq!(data.len(), 2);
    assert_eq!(data[0], 0b01010101);
    assert_eq!(data[1], 0b01010101);
}

#[test]
fn test_bit_writer_bits() {
    let mut writer = BitWriter::new();
    writer.write_bits(0b101, 3).unwrap();
    writer.write_bits(0b11, 2).unwrap();

    let data = writer.finish();
    assert_eq!(data[0], 0b10111000);
}

#[test]
fn test_bit_reader_single_bit() {
    let data = vec![0b10100000];
    let mut reader = BitReader::new(data);

    assert_eq!(reader.read_bit().unwrap(), 1);
    assert_eq!(reader.read_bit().unwrap(), 0);
    assert_eq!(reader.read_bit().unwrap(), 1);
    assert_eq!(reader.read_bit().unwrap(), 0);
}

#[test]
fn test_bit_reader_bits() {
    let data = vec![0b10111000];
    let mut reader = BitReader::new(data);

    assert_eq!(reader.read_bits(3).unwrap(), 0b101);
    assert_eq!(reader.read_bits(2).unwrap(), 0b11);
}

#[test]
fn test_empty_data_error() {
    let data = vec![];
    let mut reader = BitReader::new(data);

    assert!(reader.read_bit().is_err());
}

#[test]
fn write_then_read_same_width_returns_value() {
    let cases: Vec<(u64, usize)> = vec![(0, 0), (1, 1), (5, 3), (0x7f, 7), (0xdead_beef, 32), (u64::MAX, 64), (12345, 17)];
    let mut writer = BitWriter::new();
    for &(v, n) in &cases {
        writer.write_bits(v, n).unwrap();
    }
    let total: usize = cases.iter().map(|c| c.1).sum();
    assert_eq!(writer.bit_count(), total);
    let mut reader = BitReader::new(writer.finish());
    for &(v, n) in &cases {
        assert_eq!(reader.read_bits(n).unwrap(), v);
    }
}

#[test]
fn written_bit_sequence_reads_back_then_zero_padding_then_exhausted() {
    let bits: Vec<u8> = vec![1, 1, 0, 1, 0, 0, 0, 1, 1, 0, 1];
    let mut writer = BitWriter::new();
    for &b in &bits {
        writer.write_bit(b).unwrap();
    }
    let data = writer.finish();
    assert_eq!(data.len(), 2);
    let mut reader = BitReader::new(data);
    for &b in &bits {
        assert_eq!(reader.read_bit().unwrap(), b);
    }
    for _ in bits.len()..16 {
        assert_eq!(reader.read_bit().unwrap(), 0);
    }
    assert!(matches!(reader.read_bit(), Err(CompressionError::InsufficientData)));
}

#[test]
fn write_bits_keeps_only_low_bits() {
    let mut writer = BitWriter::new();
    writer.write_bits(0b1111_0110, 4).unwrap();
    assert_eq!(writer.finish(), vec![0b0110_0000]);
}

#[test]
fn peek_does_not_consume_and_short_read_consumes_nothing() {
    let mut reader = BitReader::new(vec![0b1010_1100, 0xff]);
    assert_eq!(reader.peek_bits(4).unwrap(), 0b1010);
    assert_eq!(reader.peek_bits(4).unwrap(), 0b1010);
    assert_eq!(reader.read_bits(4).unwrap(), 0b1010);
    assert!(matches!(reader.read_bits(13), Err(CompressionError::InsufficientData)));
    assert!(matches!(reader.peek_bits(13), Err(CompressionError::InsufficientData)));
    assert_eq!(reader.read_bits(12).unwrap(), 0b1100_1111_1111);
}

#[test]
fn widths_over_64_are_invalid_bit_length() {
    let mut writer = BitWriter::new();
    assert!(matches!(writer.write_bits(1, 65), Err(CompressionError::InvalidBitLength(65))));
    assert_eq!(writer.bit_count(), 0);
    let mut reader = BitReader::new(vec![0xff; 16]);
    assert!(matches!(reader.read_bits(70), Err(CompressionError::InvalidBitLength(70))));
    assert!(matches!(reader.peek_bits(65), Err(CompressionError::InvalidBitLength(65))));
    assert_eq!(reader.read_bits(8).unwrap(), 0xff);
}
