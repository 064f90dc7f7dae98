use count::block::{block_query_range, decode_block, encode_block, encode_runs, Block, DataPoint};
use count::blockfile::{decode_block_file, encode_block_file};
use count::error::{CompressionError, StorageError};

fn pts(v: &[(u64, f64)]) -> Vec<DataPoint> {
    v.iter().map(|&(t, x)| DataPoint::new(t, x.to_bits())).collect()
}

#[test]
fn test_data_point_creation() {
    let point = DataPoint::new(1234567890, 42.5f64.to_bits());

    assert_eq!(point.timestamp, 1234567890);
    assert_eq!(f64::from_bits(point.value_bits), 42.5);
}

#[test]
fn test_datapoint_creation() {
    let point = DataPoint::new(1609459200000, 42.5f64.to_bits());
    assert_eq!(point.timestamp, 1609459200000);
    assert_eq!(f64::from_bits(point.value_bits), 42.5);
}

#[test]
fn test_datapoint_equality() {
    let point1 = DataPoint::new(1609459200000, 42.5f64.to_bits());
    let point2 = DataPoint::new(1609459200000, 42.5f64.to_bits());
    let point3 = DataPoint::new(1609459200001, 42.5f64.to_bits());

    assert_eq!(point1, point2);
    assert_ne!(point1, point3);
}

#[test]
fn block_round_trip_keeps_every_bit() {
    let input = pts(&[
        (1000, 1.0),
        (1060, f64::NAN),
        (1120, -0.0),
        (1185, f64::INFINITY),
        (1190, 3.25),
        (5000, 3.25),
        (5001, f64::from_bits(0x7ff0_0000_dead_0001)),
    ]);
    let b = encode_block(&input).unwrap();
    assert_eq!(b.start_time, 1000);
    assert_eq!(b.end_time, 5001);
    assert_eq!(b.point_count, 7);
    assert_eq!(decode_block(&b).unwrap(), input);
}

#[test]
fn single_point_block_has_empty_streams() {
    let b = encode_block(&pts(&[(42, 7.0)])).unwrap();
    assert!(b.compressed_timestamps.is_empty());
    assert!(b.compressed_values.is_empty());
    assert_eq!(decode_block(&b).unwrap(), pts(&[(42, 7.0)]));
}

#[test]
fn regular_timestamps_compress_to_one_bit_each() {
    let input: Vec<DataPoint> = (0..1000u64).map(|i| DataPoint::new(1_000_000 + i * 60_000, (i as f64).to_bits())).collect();
    let b = encode_block(&input).unwrap();
    // first timestamp in the header, 64 bits for the first delta, then 998 one-bit codes
    assert_eq!(b.compressed_timestamps.len(), (64 + 998 + 7) / 8);
    assert_eq!(decode_block(&b).unwrap(), input);
}

#[test]
fn identical_values_compress_to_one_bit_each() {
    let input: Vec<DataPoint> = (0..1000u64).map(|i| DataPoint::new(10 + i * 7 + (i % 3), 42.5f64.to_bits())).collect();
    let b = encode_block(&input).unwrap();
    assert_eq!(b.compressed_values.len(), (999 + 7) / 8);
    assert!(b.compressed_values.iter().all(|&x| x == 0));
    assert_eq!(decode_block(&b).unwrap(), input);
}

#[test]
fn empty_or_backward_runs_are_rejected() {
    assert!(matches!(encode_block(&Vec::new()), Err(CompressionError::InvalidInput)));
    assert!(matches!(encode_block(&pts(&[(10, 1.0), (9, 1.0)])), Err(CompressionError::InvalidInput)));
    assert!(matches!(encode_block(&pts(&[(0, 1.0), (1, 1.0), (1 << 40, 1.0)])), Err(CompressionError::InvalidInput)));
}

#[test]
fn header_that_disagrees_with_streams_is_invalid_format() {
    let mut b = encode_block(&pts(&[(1000, 1.0), (2000, 2.0), (3000, 3.0)])).unwrap();
    b.end_time = 2999;
    assert!(matches!(decode_block(&b), Err(CompressionError::InvalidFormat)));
}

#[test]
fn truncated_block_is_insufficient_data() {
    let mut b = encode_block(&pts(&[(1000, 1.0), (2000, 2.0), (3000, 3.0)])).unwrap();
    b.compressed_values.truncate(2);
    assert!(matches!(decode_block(&b), Err(CompressionError::InsufficientData)));
}

#[test]
fn block_range_filter_is_inclusive() {
    let b = encode_block(&pts(&[(1000, 1.0), (1500, 2.0), (2000, 3.0), (2500, 4.0), (3000, 5.0)])).unwrap();
    assert_eq!(block_query_range(&b, 2000, 2000).unwrap(), pts(&[(2000, 3.0)]));
    assert_eq!(block_query_range(&b, 1500, 2500).unwrap().len(), 3);
    assert_eq!(block_query_range(&b, 800, 1200).unwrap(), pts(&[(1000, 1.0)]));
    assert!(block_query_range(&b, 3001, 9000).unwrap().is_empty());
}

#[test]
fn block_file_round_trip() {
    let b = encode_block(&pts(&[(1000, 1.0), (2000, 2.0), (3500, -7.5)])).unwrap();
    let bytes = encode_block_file(&b);
    assert_eq!(bytes.len(), 48 + b.compressed_timestamps.len() + b.compressed_values.len());
    assert_eq!(&bytes[0..8], &1000u64.to_le_bytes());
    let back: Block = decode_block_file(&bytes).unwrap();
    assert_eq!(back.start_time, b.start_time);
    assert_eq!(back.end_time, b.end_time);
    assert_eq!(back.point_count, b.point_count);
    assert_eq!(back.first_value, b.first_value);
    assert_eq!(back.compressed_timestamps, b.compressed_timestamps);
    assert_eq!(back.compressed_values, b.compressed_values);
    assert_eq!(decode_block(&back).unwrap(), decode_block(&b).unwrap());
}

#[test]
fn malformed_block_file_is_an_io_error() {
    let b = encode_block(&pts(&[(1000, 1.0), (2000, 2.0)])).unwrap();
    let mut bytes = encode_block_file(&b);
    bytes.pop();
    assert!(matches!(decode_block_file(&bytes), Err(StorageError::IoError)));
    assert!(matches!(decode_block_file(&vec![0u8; 39]), Err(StorageError::IoError)));
}

#[test]
fn encode_runs_splits_where_the_codec_cannot_continue() {
    let input = pts(&[(0, 1.0), (1, 2.0), (1 << 40, 3.0), ((1 << 40) + 1, 4.0), (u64::MAX, 5.0)]);
    let blocks = encode_runs(&input);
    let counts: Vec<usize> = blocks.iter().map(|b| b.point_count).collect();
    assert_eq!(counts, vec![2, 2, 1]);
    let back: Vec<DataPoint> = blocks.iter().flat_map(|b| decode_block(b).unwrap()).collect();
    assert_eq!(back, input);
    assert!(encode_runs(&Vec::new()).is_empty());
}
