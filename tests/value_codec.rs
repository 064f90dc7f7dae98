use count::bitstream::{BitReader, BitWriter};
use count::value::{ValueCompressor, ValueDecompressor};

fn compress_all(first: f64, values: &[f64]) -> Vec<u8> {
    let mut compressor = ValueCompressor::new(first.to_bits());
    let mut writer = BitWriter::new();
    for v in values {
        compressor.compress(v.to_bits(), &mut writer).unwrap();
    }
    writer.finish()
}

fn decompress_all(first: f64, data: Vec<u8>, n: usize) -> Vec<u64> {
    let mut reader = BitReader::new(data);
    let mut decompressor = ValueDecompressor::new(first.to_bits());
    (0..n).map(|_| decompressor.decompress(&mut reader).unwrap()).collect()
}

#[test]
fn test_value_compression_same_value() {
    let mut compressor = ValueCompressor::new(42.5f64.to_bits());
    let mut writer = BitWriter::new();

    compressor.compress(42.5f64.to_bits(), &mut writer).unwrap();
    compressor.compress(42.5f64.to_bits(), &mut writer).unwrap();

    let data = writer.finish();
    let mut reader = BitReader::new(data);
    let mut decompressor = ValueDecompressor::new(42.5f64.to_bits());

    assert_eq!(f64::from_bits(decompressor.decompress(&mut reader).unwrap()), 42.5);
    assert_eq!(f64::from_bits(decompressor.decompress(&mut reader).unwrap()), 42.5);
}

#[test]
fn test_value_compression_different_values() {
    let data = compress_all(42.5, &[43.0, 44.5, 45.0]);
    let out = decompress_all(42.5, data, 3);
    assert_eq!(f64::from_bits(out[0]), 43.0);
    assert_eq!(f64::from_bits(out[1]), 44.5);
    assert_eq!(f64::from_bits(out[2]), 45.0);
}

#[test]
fn test_value_compression_similar_patterns() {
    let data = compress_all(1.0, &[1.1, 1.2, 1.3]);
    let out = decompress_all(1.0, data, 3);
    assert!((f64::from_bits(out[0]) - 1.1).abs() < 1e-10);
    assert!((f64::from_bits(out[1]) - 1.2).abs() < 1e-10);
    assert!((f64::from_bits(out[2]) - 1.3).abs() < 1e-10);
}

#[test]
fn test_value_compression_zero_values() {
    let data = compress_all(0.0, &[0.0, 1.0, 0.0]);
    let out = decompress_all(0.0, data, 3);
    assert_eq!(f64::from_bits(out[0]), 0.0);
    assert_eq!(f64::from_bits(out[1]), 1.0);
    assert_eq!(f64::from_bits(out[2]), 0.0);
}

#[test]
fn test_value_compression_special_values() {
    let data = compress_all(f64::NAN, &[f64::INFINITY, f64::NEG_INFINITY]);
    let out = decompress_all(f64::NAN, data, 2);
    assert_eq!(f64::from_bits(out[0]), f64::INFINITY);
    assert_eq!(f64::from_bits(out[1]), f64::NEG_INFINITY);
}

#[test]
fn identical_values_cost_one_bit_each() {
    let values = vec![42.5f64; 999];
    let data = compress_all(42.5, &values);
    // 999 zero bits: 125 bytes, all zero
    assert_eq!(data.len(), 125);
    assert!(data.iter().all(|&b| b == 0));
}

#[test]
fn nan_payloads_and_signed_zero_keep_their_bits() {
    let weird = [
        f64::from_bits(0x7ff8_0000_0000_0001),
        f64::from_bits(0xfff4_dead_beef_0000),
        -0.0,
        0.0,
        f64::from_bits(0x0000_0000_0000_0001),
        f64::MAX,
        f64::MIN_POSITIVE,
    ];
    let data = compress_all(1.5, &weird);
    let out = decompress_all(1.5, data, weird.len());
    let expected: Vec<u64> = weird.iter().map(|v| v.to_bits()).collect();
    assert_eq!(out, expected);
}

#[test]
fn wide_leading_zero_runs_round_trip() {
    // XORs with more than 31 leading zeros and a full 64-bit meaningful window
    let bits: Vec<u64> = vec![1, 3, 0x8000_0000_0000_0001, 0x8000_0000_0000_0000, 2, 0xffff_ffff_ffff_fffe];
    let mut compressor = ValueCompressor::new(0);
    let mut writer = BitWriter::new();
    for &b in &bits {
        compressor.compress(b, &mut writer).unwrap();
    }
    let mut reader = BitReader::new(writer.finish());
    let mut decompressor = ValueDecompressor::new(0);
    for &b in &bits {
        assert_eq!(decompressor.decompress(&mut reader).unwrap(), b);
    }
}

#[test]
fn value_code_layout_is_exact() {
    // 0 -> 1: xor 1, window starts empty (0, 0): reuse path, 64 meaningful bits: '1' '0' + 64 bits
    let mut compressor = ValueCompressor::new(0);
    let mut writer = BitWriter::new();
    compressor.compress(1, &mut writer).unwrap();
    assert_eq!(writer.bit_count(), 66);
    // 1 -> 1: '0'
    compressor.compress(1, &mut writer).unwrap();
    assert_eq!(writer.bit_count(), 67);
}

#[test]
fn bad_window_is_invalid_format() {
    // '1' '1', leading 31, meaningful 40: 31 + 40 > 64
    let mut writer = BitWriter::new();
    writer.write_bits(0b11, 2).unwrap();
    writer.write_bits(31, 5).unwrap();
    writer.write_bits(40, 6).unwrap();
    writer.write_bits(0, 40).unwrap();
    let mut reader = BitReader::new(writer.finish());
    let mut decompressor = ValueDecompressor::new(0);
    assert!(matches!(
        decompressor.decompress(&mut reader),
        Err(count::error::CompressionError::InvalidFormat)
    ));
}
