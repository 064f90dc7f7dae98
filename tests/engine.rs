use count::block::{encode_block, Block, DataPoint};
use count::blockfile::{decode_block_file, encode_block_file};
use count::error::StorageError;
use count::store::Engine;

fn p(t: u64, v: f64) -> DataPoint {
    DataPoint::new(t, v.to_bits())
}

fn values(r: &[DataPoint]) -> Vec<(u64, f64)> {
    r.iter().map(|d| (d.timestamp, f64::from_bits(d.value_bits))).collect()
}

fn name(s: &str) -> String {
    s.to_string()
}

const DAY: u64 = 86_400_000;

#[test]
fn test_storage_engine_range_boundary_conditions() {
    let mut e = Engine::new(100, false);
    let s = name("test.boundaries");
    for t in [1000u64, 1500, 2000, 2500, 3000] {
        e.insert(&s, p(t, t as f64)).unwrap();
    }
    let one = e.query_range(&s, 2000, 2000).unwrap();
    assert_eq!(one.len(), 1);
    assert_eq!(one[0].timestamp, 2000);
    assert_eq!(e.query_range(&s, 1500, 2500).unwrap().len(), 3);
    let first = e.query_range(&s, 800, 1200).unwrap();
    assert_eq!(first.len(), 1);
    assert_eq!(first[0].timestamp, 1000);
    assert!(e.query_range(&s, 4000, 5000).unwrap().is_empty());
}

#[test]
fn aggregates_over_a_query() {
    let mut e = Engine::new(100, false);
    let s = name("test.aggregation");
    for (t, v) in [(1000, 10.0), (2000, 20.0), (3000, 30.0), (4000, 40.0), (5000, 50.0)] {
        e.insert(&s, p(t, v)).unwrap();
    }
    let r = e.query_range(&s, 0, 6000).unwrap();
    let vals: Vec<f64> = r.iter().map(|d| f64::from_bits(d.value_bits)).collect();
    let sum: f64 = vals.iter().sum();
    assert_eq!(sum, 150.0);
    assert_eq!(sum / vals.len() as f64, 30.0);
    assert_eq!(vals.iter().cloned().fold(f64::INFINITY, f64::min), 10.0);
    assert_eq!(vals.iter().cloned().fold(f64::NEG_INFINITY, f64::max), 50.0);
    assert_eq!(vals.len(), 5);
}

#[test]
fn empty_and_unknown_series_query_empty() {
    let mut e = Engine::new(10, false);
    assert!(e.query_range(&name("nope"), 0, u64::MAX).unwrap().is_empty());
    e.insert(&name("a"), p(5, 1.0)).unwrap();
    assert!(e.query_range(&name("a"), 6, 100).unwrap().is_empty());
}

#[test]
fn inverted_range_is_an_error() {
    let e = Engine::new(10, false);
    assert!(matches!(e.query_range(&name("x"), 10, 9), Err(StorageError::InvalidTimeRange(10, 9))));
}

#[test]
fn same_timestamp_second_write_wins() {
    let mut e = Engine::new(10, false);
    let s = name("dup");
    e.insert(&s, p(1000, 1.0)).unwrap();
    e.insert(&s, p(1000, 2.0)).unwrap();
    assert_eq!(values(&e.query_range(&s, 0, u64::MAX).unwrap()), vec![(1000, 2.0)]);
}

#[test]
fn every_write_once_with_last_write_winning_across_tiers() {
    // a small buffer forces pending blocks; a flush moves them to disk
    let mut e = Engine::new(4, false);
    let s = name("mixed");
    let mut expected = std::collections::BTreeMap::new();
    let order: Vec<u64> = vec![50, 10, 30, 20, 40, 60, 70, 10, 80, 90, 30, 100, 5, 65, 20];
    for (i, &t) in order.iter().enumerate() {
        let v = (i * 3) as f64;
        e.insert(&s, p(t, v)).unwrap();
        expected.insert(t, v);
        if i == 7 {
            e.force_flush().unwrap();
        }
    }
    let got = values(&e.query_range(&s, 0, 1u64 << 63).unwrap());
    let want: Vec<(u64, f64)> = expected.into_iter().collect();
    assert_eq!(got, want);
}

#[test]
fn memory_buffer_seals_oldest_half_and_keeps_everything_queryable() {
    let mut e = Engine::new(50, false);
    let s = name("test.compression");
    for i in 0..100u64 {
        e.insert(&s, p(1000 + i * 60, i as f64)).unwrap();
    }
    let r = e.query_range(&s, 0, 100_000).unwrap();
    assert_eq!(r.len(), 100);
    for (i, d) in r.iter().enumerate() {
        assert_eq!(d.timestamp, 1000 + i as u64 * 60);
        assert_eq!(f64::from_bits(d.value_bits), i as f64);
    }
}

#[test]
fn sub_range_is_the_total_cut_to_the_range() {
    let mut e = Engine::new(8, false);
    let s = name("sub");
    for i in 0..40u64 {
        e.insert(&s, p(i * 37 % 1000, i as f64)).unwrap();
        if i == 20 {
            e.force_flush().unwrap();
        }
    }
    let all = e.query_range(&s, 0, u64::MAX).unwrap();
    for (lo, hi) in [(0u64, 100u64), (150, 151), (333, 777), (999, 999), (500, 2000)] {
        let want: Vec<DataPoint> = all.iter().cloned().filter(|d| lo <= d.timestamp && d.timestamp <= hi).collect();
        assert_eq!(e.query_range(&s, lo, hi).unwrap(), want);
    }
}

#[test]
fn flush_then_reload_answers_the_same() {
    let mut e = Engine::new(100, false);
    let s = name("test.persistence");
    for i in 0..150u64 {
        e.insert(&s, p(1000 + i * 1000, i as f64 * 0.5)).unwrap();
    }
    e.force_flush().unwrap();
    let before = e.query_range(&s, 0, 150_000_000).unwrap();
    assert_eq!(before.len(), 150);

    // what a caller writes to disk and reads back
    let files: Vec<Vec<u8>> = e.disk_blocks(&s).iter().map(encode_block_file).collect();
    assert!(!files.is_empty());
    drop(e);
    let blocks: Vec<Block> = files.iter().map(|f| decode_block_file(f).unwrap()).collect();
    let mut fresh = Engine::new(100, false);
    fresh.load_series(&s, blocks, Vec::new());
    assert_eq!(fresh.query_range(&s, 0, 150_000_000).unwrap(), before);
    assert_eq!(fresh.list_series(), vec![s.clone()]);
}

#[test]
fn archive_lifecycle() {
    let now = 100 * DAY;
    let mut e = Engine::new(1000, true);
    let s = name("test.series");
    // a block ending 20 days ago and one ending 5 days ago
    for t in [now - 21 * DAY, now - 20 * DAY] {
        e.insert(&s, p(t, 1.0)).unwrap();
    }
    e.force_flush().unwrap();
    for t in [now - 6 * DAY, now - 5 * DAY] {
        e.insert(&s, p(t, 2.0)).unwrap();
    }
    e.force_flush().unwrap();
    assert_eq!(e.disk_blocks(&s).len(), 2);

    let cutoff = count::config::archive_cutoff(now, 1);
    assert_eq!(e.force_archive(cutoff), 2);
    assert!(e.disk_blocks(&s).is_empty());
    assert_eq!(e.archive_blocks(&s).len(), 2);
    assert_eq!(e.query_range(&s, 0, u64::MAX).unwrap().len(), 4);

    assert_eq!(e.cleanup_old_data(now - 15 * DAY), 1);
    let left = e.query_range(&s, 0, u64::MAX).unwrap();
    assert_eq!(values(&left), vec![(now - 6 * DAY, 2.0), (now - 5 * DAY, 2.0)]);
}

#[test]
fn archiving_disabled_moves_nothing() {
    let mut e = Engine::new(10, false);
    let s = name("s");
    e.insert(&s, p(1, 1.0)).unwrap();
    e.force_flush().unwrap();
    assert_eq!(e.force_archive(u64::MAX), 0);
    assert_eq!(e.disk_blocks(&s).len(), 1);
    assert!(e.archive_blocks(&s).is_empty());
}

#[test]
fn cleanup_keeps_later_points_and_whole_spanning_blocks() {
    let mut e = Engine::new(1000, false);
    let s = name("test.cleanup");
    for t in [1000u64, 2000, 3000] {
        e.insert(&s, p(t, 1.0)).unwrap();
    }
    e.force_flush().unwrap();
    for t in [4000u64, 6000] {
        e.insert(&s, p(t, 2.0)).unwrap();
    }
    e.force_flush().unwrap();
    for t in [8000u64, 9000] {
        e.insert(&s, p(t, 3.0)).unwrap();
    }
    e.force_flush().unwrap();
    let c = 5000;
    let later_before = e.query_range(&s, c, u64::MAX).unwrap();
    assert_eq!(e.cleanup_old_data(c), 1);
    assert_eq!(e.query_range(&s, c, u64::MAX).unwrap(), later_before);
    // the block [4000, 6000] spans the cutoff and stays whole
    assert_eq!(values(&e.query_range(&s, 0, c - 1).unwrap()), vec![(4000, 2.0)]);
}

#[test]
fn corrupt_disk_block_fails_the_query_of_its_series_only() {
    let mut e = Engine::new(10, false);
    let good = encode_block(&vec![p(10, 1.0), p(20, 2.0), p(30, 3.0)]).unwrap();
    let mut bad = encode_block(&vec![p(10, 1.0), p(20, 2.0), p(30, 3.0)]).unwrap();
    bad.compressed_timestamps.truncate(1);
    e.load_series(&name("bad"), vec![bad], Vec::new());
    e.load_series(&name("good"), vec![good], Vec::new());
    assert!(matches!(e.query_range(&name("bad"), 0, 100), Err(StorageError::CompressionError(_))));
    // a range that the corrupt block does not meet is not affected
    assert!(e.query_range(&name("bad"), 31, 100).unwrap().is_empty());
    assert_eq!(e.query_range(&name("good"), 0, 100).unwrap().len(), 3);
}

#[test]
fn list_series_names_persisted_series_only() {
    let mut e = Engine::new(10, false);
    e.insert(&name("mem.only"), p(1, 1.0)).unwrap();
    assert!(e.list_series().is_empty());
    e.insert(&name("disk.usage"), p(1, 1.0)).unwrap();
    let mut b = Engine::new(10, false);
    b.load_series(&name("cpu.usage"), Vec::new(), vec![encode_block(&vec![p(1, 1.0)]).unwrap()]);
    assert_eq!(b.list_series(), vec![name("cpu.usage")]);
    e.force_flush().unwrap();
    assert_eq!(e.list_series(), vec![name("mem.only"), name("disk.usage")]);
}

#[test]
fn flush_keeps_points_across_a_gap_beyond_32_bits() {
    // daily samples, then a month without data: the delta-of-delta (about 2.5e9 ms)
    // does not fit 32 bits, so the flushed points span several blocks
    let mut e = Engine::new(1000, false);
    let s = name("daily");
    let mut ts: Vec<u64> = (0..10u64).map(|d| d * DAY).collect();
    ts.extend((40..45u64).map(|d| d * DAY));
    for (i, &t) in ts.iter().enumerate() {
        e.insert(&s, p(t, i as f64)).unwrap();
    }
    e.force_flush().unwrap();
    let disk = e.disk_blocks(&s);
    assert!(disk.len() >= 2);
    assert_eq!(disk.iter().map(|b| b.point_count).sum::<usize>(), ts.len());
    let before = e.query_range(&s, 0, u64::MAX).unwrap();
    assert_eq!(before.len(), ts.len());

    let files: Vec<Vec<u8>> = disk.iter().map(encode_block_file).collect();
    let blocks: Vec<Block> = files.iter().map(|f| decode_block_file(f).unwrap()).collect();
    let mut fresh = Engine::new(1000, false);
    fresh.load_series(&s, blocks, Vec::new());
    assert_eq!(fresh.query_range(&s, 0, u64::MAX).unwrap(), before);
}

#[test]
fn sealing_splits_runs_at_unencodable_gaps() {
    // every step doubles the gap, so no delta-of-delta after the first few fits
    let mut e = Engine::new(4, false);
    let s = name("gaps");
    let mut t: u64 = 0;
    let mut want = Vec::new();
    for i in 0..40u64 {
        t += 1u64 << (i % 40 + 10).min(50);
        e.insert(&s, p(t, i as f64)).unwrap();
        want.push((t, i as f64));
    }
    assert_eq!(values(&e.query_range(&s, 0, u64::MAX).unwrap()), want);
    e.force_flush().unwrap();
    assert_eq!(values(&e.query_range(&s, 0, u64::MAX).unwrap()), want);
    assert_eq!(e.disk_blocks(&s).iter().map(|b| b.point_count).sum::<usize>(), want.len());
}
