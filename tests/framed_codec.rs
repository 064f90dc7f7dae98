use count::framed::{TimestampCompressor, TimestampDecompressor};

#[test]
fn test_timestamp_compression_regular_intervals() {
    let mut compressor = TimestampCompressor::new();
    let mut decompressor = TimestampDecompressor::new();

    let timestamps = vec![1000, 1060, 1120, 1180, 1240]; // 60-second intervals
    let mut compressed_sizes = Vec::new();

    for &ts in &timestamps {
        let compressed = compressor.compress(ts).unwrap();
        compressed_sizes.push(compressed.len());
        let decompressed = decompressor.decompress(&compressed).unwrap();
        assert_eq!(ts, decompressed);
    }

    assert_eq!(compressed_sizes[0], 8);
    assert!(compressed_sizes[1] > 1);
    assert_eq!(compressed_sizes[2], 1);
    assert_eq!(compressed_sizes[3], 1);
    assert_eq!(compressed_sizes[4], 1);
}

#[test]
fn test_timestamp_compression_irregular_intervals() {
    let mut compressor = TimestampCompressor::new();
    let mut decompressor = TimestampDecompressor::new();

    let timestamps = vec![1000, 1063, 1119, 1185, 1241]; // Irregular intervals

    for &ts in &timestamps {
        let compressed = compressor.compress(ts).unwrap();
        let decompressed = decompressor.decompress(&compressed).unwrap();
        assert_eq!(ts, decompressed);
    }
}

#[test]
fn framed_short_record_fails() {
    let mut decompressor = TimestampDecompressor::new();
    assert!(decompressor.decompress(&[1, 2, 3]).is_err());
    // a failed read leaves the decompressor where it was
    let mut compressor = TimestampCompressor::new();
    let rec = compressor.compress(77).unwrap();
    assert_eq!(decompressor.decompress(&rec).unwrap(), 77);
}
