use count::block::{decode_block, BlockBuilder, DataPoint};
use count::cluster::{shard_hash, ShardKey};
use count::error::CompressionError;
use count::store::Engine;

fn p(t: u64, v: f64) -> DataPoint {
    DataPoint::new(t, v.to_bits())
}

#[test]
fn builder_takes_points_in_order_and_seals() {
    let mut b = BlockBuilder::new(p(1000, 1.0));
    b.add_point(p(1500, 2.0)).unwrap();
    b.add_point(p(1500, 2.5)).unwrap();
    assert_eq!(b.end_time(), 1500);
    assert!(matches!(b.add_point(p(999, 3.0)), Err(CompressionError::InvalidInput)));
    b.add_point(p(1600, 3.0)).unwrap();
    let block = b.seal();
    assert_eq!(block.start_time, 1000);
    assert_eq!(block.end_time, 1600);
    assert_eq!(block.point_count, 4);
    assert_eq!(decode_block(&block).unwrap(), vec![p(1000, 1.0), p(1500, 2.0), p(1500, 2.5), p(1600, 3.0)]);
}

#[test]
fn builder_rejects_unencodable_jump_and_keeps_going() {
    let mut b = BlockBuilder::new(p(0, 1.0));
    b.add_point(p(1, 1.0)).unwrap();
    assert!(matches!(b.add_point(p(1 << 40, 1.0)), Err(CompressionError::InvalidInput)));
    b.add_point(p(2, 1.0)).unwrap();
    assert_eq!(decode_block(&b.seal()).unwrap(), vec![p(0, 1.0), p(1, 1.0), p(2, 1.0)]);
}

#[test]
fn shard_key_is_first_eight_digest_bytes() {
    // SHA-256("abc") = ba7816bf 8f01cfea 414140de ...
    let k = ShardKey::new("abc");
    assert_eq!(k.series, "abc");
    assert_eq!(k.hash, 0xba7816bf8f01cfea);
    assert_eq!(ShardKey::new("cpu.usage.total").hash, ShardKey::new("cpu.usage.total").hash);
    assert_ne!(ShardKey::new("cpu.usage.total").hash, ShardKey::new("cpu.usage.idle").hash);
}

#[test]
fn shard_hash_reads_big_endian() {
    assert_eq!(shard_hash(&vec![1, 2, 3, 4, 5, 6, 7, 8, 9]), 0x0102030405060708);
}

#[test]
fn archival_by_age_moves_old_blocks() {
    let mut e = Engine::new(100, true);
    let s = "old.series".to_string();
    e.insert(&s, p(1000, 1.0)).unwrap();
    e.insert(&s, p(2000, 2.0)).unwrap();
    e.force_flush().unwrap();
    // a block ending in 1970 is older than 14 days
    assert_eq!(e.force_archival(14), 1);
    assert!(e.disk_blocks(&s).is_empty());
    assert_eq!(e.archive_blocks(&s).len(), 1);
    assert_eq!(e.query_range(&s, 0, u64::MAX).unwrap().len(), 2);
}

#[test]
fn shutdown_flushes_and_can_run_twice() {
    let mut e = Engine::new(100, false);
    let s = "test.shutdown".to_string();
    e.insert(&s, p(1000, 42.0)).unwrap();
    e.shutdown().unwrap();
    assert_eq!(e.disk_blocks(&s).len(), 1);
    e.shutdown().unwrap();
    assert_eq!(e.disk_blocks(&s).len(), 1);
    assert_eq!(e.query_range(&s, 0, 2000).unwrap().len(), 1);
}
