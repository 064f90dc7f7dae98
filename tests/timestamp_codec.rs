use count::bitstream::{BitReader, BitWriter};
use count::error::CompressionError;
use count::timestamp::{TimestampCompressor, TimestampDecompressor};

fn round_trip(first: u64, rest: &[u64]) -> Vec<u64> {
    let mut compressor = TimestampCompressor::new(first);
    let mut writer = BitWriter::new();
    for &ts in rest {
        compressor.compress(ts, &mut writer).unwrap();
    }
    let mut reader = BitReader::new(writer.finish());
    let mut decompressor = TimestampDecompressor::new(first);
    rest.iter().map(|_| decompressor.decompress(&mut reader).unwrap()).collect()
}

#[test]
fn test_timestamp_compression_zero_delta() {
    let mut compressor = TimestampCompressor::new(1000);
    let mut writer = BitWriter::new();

    compressor.compress(1010, &mut writer).unwrap();
    compressor.compress(1020, &mut writer).unwrap();
    compressor.compress(1030, &mut writer).unwrap();

    let data = writer.finish();
    let mut reader = BitReader::new(data);
    let mut decompressor = TimestampDecompressor::new(1000);

    assert_eq!(decompressor.decompress(&mut reader).unwrap(), 1010);
    assert_eq!(decompressor.decompress(&mut reader).unwrap(), 1020);
    assert_eq!(decompressor.decompress(&mut reader).unwrap(), 1030);
}

#[test]
fn test_timestamp_compression_small_delta() {
    let mut compressor = TimestampCompressor::new(1000);
    let mut writer = BitWriter::new();

    compressor.compress(1010, &mut writer).unwrap();
    compressor.compress(1021, &mut writer).unwrap();
    compressor.compress(1032, &mut writer).unwrap();

    let data = writer.finish();
    let mut reader = BitReader::new(data);
    let mut decompressor = TimestampDecompressor::new(1000);

    assert_eq!(decompressor.decompress(&mut reader).unwrap(), 1010);
    assert_eq!(decompressor.decompress(&mut reader).unwrap(), 1021);
    assert_eq!(decompressor.decompress(&mut reader).unwrap(), 1032);
}

#[test]
fn test_timestamp_compression_large_delta() {
    let mut compressor = TimestampCompressor::new(1000);
    let mut writer = BitWriter::new();

    compressor.compress(1010, &mut writer).unwrap();
    compressor.compress(2000, &mut writer).unwrap();
    compressor.compress(2010, &mut writer).unwrap();

    let data = writer.finish();
    let mut reader = BitReader::new(data);
    let mut decompressor = TimestampDecompressor::new(1000);

    assert_eq!(decompressor.decompress(&mut reader).unwrap(), 1010);
    assert_eq!(decompressor.decompress(&mut reader).unwrap(), 2000);
    assert_eq!(decompressor.decompress(&mut reader).unwrap(), 2010);
}

#[test]
fn every_prefix_class_and_its_bounds_round_trip() {
    // Deltas chosen so that the delta-of-delta hits each class at both ends.
    let dods: Vec<i64> = vec![0, 1, -1, 64, -63, 65, -64, 256, -255, 257, -256, 2048, -2047, 2049, -2048, 1 << 30, -(1 << 30), i32::MAX as i64, i32::MIN as i64];
    let mut ts: Vec<u64> = Vec::new();
    let mut cur: i64 = 1 << 40;
    let mut delta: i64 = 5_000_000_000;
    cur += delta;
    ts.push(cur as u64);
    for d in dods {
        delta += d;
        cur += delta;
        ts.push(cur as u64);
    }
    assert_eq!(round_trip(1 << 40, &ts), ts);
}

#[test]
fn code_widths_follow_the_prefix_table() {
    // first delta: 64 bits; then dod 0 (1 bit), 64 (9 bits), 256 (12 bits), 2048 (16 bits), 2049 (36 bits)
    let mut compressor = TimestampCompressor::new(0);
    let mut writer = BitWriter::new();
    let mut counts = Vec::new();
    for ts in [10u64, 20, 94, 424, 2802, 7229] {
        compressor.compress(ts, &mut writer).unwrap();
        counts.push(writer.bit_count());
    }
    assert_eq!(counts, vec![64, 65, 74, 86, 102, 138]);
}

#[test]
fn decreasing_timestamps_round_trip() {
    let ts = vec![900, 950, 100, 101, 50];
    assert_eq!(round_trip(1000, &ts), ts);
}

#[test]
fn delta_of_delta_beyond_32_bits_is_invalid_input() {
    let mut compressor = TimestampCompressor::new(0);
    let mut writer = BitWriter::new();
    compressor.compress(1, &mut writer).unwrap();
    let before = writer.bit_count();
    let r = compressor.compress(1 << 40, &mut writer);
    assert!(matches!(r, Err(CompressionError::InvalidInput)));
    assert_eq!(writer.bit_count(), before);
    // the compressor is unchanged: the next regular timestamp still encodes
    compressor.compress(2, &mut writer).unwrap();
}

#[test]
fn delta_beyond_64_bit_signed_is_invalid_input() {
    let mut compressor = TimestampCompressor::new(0);
    let mut writer = BitWriter::new();
    assert!(matches!(compressor.compress(u64::MAX, &mut writer), Err(CompressionError::InvalidInput)));
}

#[test]
fn truncated_stream_is_insufficient_data() {
    let mut compressor = TimestampCompressor::new(1000);
    let mut writer = BitWriter::new();
    compressor.compress(2000, &mut writer).unwrap();
    let mut data = writer.finish();
    data.truncate(7);
    let mut reader = BitReader::new(data);
    let mut decompressor = TimestampDecompressor::new(1000);
    assert!(matches!(decompressor.decompress(&mut reader), Err(CompressionError::InsufficientData)));
}

#[test]
fn decoded_timestamp_out_of_range_is_invalid_format() {
    // first delta of -2000 from 1000 would go before zero
    let mut writer = BitWriter::new();
    writer.write_bits((-2000i64) as u64, 64).unwrap();
    let mut reader = BitReader::new(writer.finish());
    let mut decompressor = TimestampDecompressor::new(1000);
    assert!(matches!(decompressor.decompress(&mut reader), Err(CompressionError::InvalidFormat)));
}
