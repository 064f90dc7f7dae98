use vstd::prelude::*;
use crate::block::{
    Block,
    DataPoint,
    decode_block_spec,
    encodes,
    encodable,
    in_range,
    range_filter,
    strictly_increasing,
    lemma_block_round_trip,
    lemma_decoded_within_span,
    oversized,
    runs,
};
use crate::series::{latest, merged, lemma_latest_push, lemma_latest_concat};
use crate::store::{
    SeriesData,
    after_write,
    blocks_points,
    series_points,
    overlaps,
    kept,
    same_block,
    seal_count,
    lemma_sorted_is_merged,
};

verus! {

proof fn lemma_filter_everything(s: Seq<DataPoint>)
    ensures
        range_filter(s, 0, u64::MAX) == s,
    decreases s.len(),
{
    reveal_with_fuel(Seq::filter, 1);
    if s.len() > 0 {
        lemma_filter_everything(s.drop_last());
        assert(s.drop_last().push(s.last()) =~= s);
    }
}

proof fn lemma_filter_nothing(s: Seq<DataPoint>, lo: u64, hi: u64)
    requires
        forall|i: int| 0 <= i < s.len() ==> !in_range(#[trigger] s[i], lo, hi),
    ensures
        range_filter(s, lo, hi) == Seq::<DataPoint>::empty(),
    decreases s.len(),
{
    reveal_with_fuel(Seq::filter, 1);
    if s.len() > 0 {
        assert forall|i: int| 0 <= i < s.drop_last().len() implies !in_range(
            #[trigger] s.drop_last()[i],
            lo,
            hi,
        ) by {
            assert(s.drop_last()[i] == s[i]);
        }
        lemma_filter_nothing(s.drop_last(), lo, hi);
        assert(!in_range(s[s.len() - 1], lo, hi));
    }
}

proof fn lemma_filter_add(a: Seq<DataPoint>, b: Seq<DataPoint>, lo: u64, hi: u64)
    ensures
        range_filter(a + b, lo, hi) == range_filter(a, lo, hi) + range_filter(b, lo, hi),
{
    Seq::filter_distributes_over_add(a, b, |p: DataPoint| in_range(p, lo, hi));
}

proof fn lemma_latest_filter(s: Seq<DataPoint>, lo: u64, hi: u64, k: u64)
    ensures
        latest(range_filter(s, lo, hi), k) == (if lo <= k <= hi { latest(s, k) } else { None }),
    decreases s.len(),
{
    reveal_with_fuel(Seq::filter, 1);
    if s.len() > 0 {
        lemma_latest_filter(s.drop_last(), lo, hi, k);
        if in_range(s.last(), lo, hi) {
            lemma_latest_push(range_filter(s.drop_last(), lo, hi), s.last(), k);
        }
    }
}

/// A strictly ordered merged listing says, at every timestamp, what the writes say.
proof fn lemma_merged_latest(r: Seq<DataPoint>, pts: Seq<DataPoint>, k: u64)
    requires
        merged(r, pts),
    ensures
        latest(r, k) == latest(pts, k),
{
    lemma_sorted_is_merged(r);
    if exists|i: int| 0 <= i < r.len() && r[i].timestamp == k {
        let i = choose|i: int| 0 <= i < r.len() && r[i].timestamp == k;
        assert(latest(r, r[i].timestamp) == Some(r[i].value_bits));
        assert(latest(pts, r[i].timestamp) == Some(r[i].value_bits));
    } else {
        if latest(r, k) is Some {
            assert(exists|i: int| 0 <= i < r.len() && r[i].timestamp == k);
        }
        if latest(pts, k) is Some {
            assert(exists|i: int| 0 <= i < r.len() && r[i].timestamp == k);
        }
    }
}

/// What a range of blocks yields is the whole of what they hold, cut to the range.
proof fn lemma_blocks_sub_range(bs: Seq<Block>, lo: u64, hi: u64)
    requires
        blocks_points(bs, 0, u64::MAX) is Ok,
    ensures
        blocks_points(bs, lo, hi) == Ok::<Seq<DataPoint>, crate::error::CompressionError>(
            range_filter(blocks_points(bs, 0, u64::MAX).unwrap(), lo, hi),
        ),
    decreases bs.len(),
{
    if bs.len() > 0 {
        let b = bs.last();
        lemma_blocks_sub_range(bs.drop_last(), lo, hi);
        let y = blocks_points(bs.drop_last(), 0, u64::MAX).unwrap();
        let p = decode_block_spec(b).unwrap();
        lemma_filter_everything(p);
        lemma_filter_add(y, p, lo, hi);
        if !overlaps(b, lo, hi) {
            lemma_decoded_within_span(b);
            assert forall|i: int| 0 <= i < p.len() implies !in_range(#[trigger] p[i], lo, hi) by {
                assert(b.start_time <= p[i].timestamp <= b.end_time);
            }
            lemma_filter_nothing(p, lo, hi);
            assert(range_filter(y, lo, hi) + Seq::<DataPoint>::empty() =~= range_filter(y, lo, hi));
        }
    } else {
        reveal_with_fuel(Seq::filter, 1);
    }
}

/// Every point of a query of `[lo, hi]` is a point of a query of everything,
/// cut to the range: the same writes in the same order.
pub proof fn lemma_sub_range(sd: SeriesData, lo: u64, hi: u64)
    requires
        series_points(sd, 0, u64::MAX) is Ok,
    ensures
        series_points(sd, lo, hi) == Ok::<Seq<DataPoint>, crate::error::CompressionError>(
            range_filter(series_points(sd, 0, u64::MAX).unwrap(), lo, hi),
        ),
{
    lemma_blocks_sub_range(sd.archive@, lo, hi);
    lemma_blocks_sub_range(sd.disk@, lo, hi);
    lemma_blocks_sub_range(sd.pending@, lo, hi);
    let a = blocks_points(sd.archive@, 0, u64::MAX).unwrap();
    let d = blocks_points(sd.disk@, 0, u64::MAX).unwrap();
    let p = blocks_points(sd.pending@, 0, u64::MAX).unwrap();
    lemma_filter_everything(sd.raw@);
    lemma_filter_add(a, d, lo, hi);
    lemma_filter_add(a + d, p, lo, hi);
    lemma_filter_add(a + d + p, sd.raw@, lo, hi);
}

/// Blocks that end before `cutoff` contribute nothing to a query from `cutoff` on.
proof fn lemma_blocks_after_cutoff(bs: Seq<Block>, cutoff: u64, hi: u64)
    ensures
        blocks_points(kept(bs, cutoff), cutoff, hi) == blocks_points(bs, cutoff, hi),
    decreases bs.len(),
{
    reveal_with_fuel(Seq::filter, 1);
    if bs.len() > 0 {
        lemma_blocks_after_cutoff(bs.drop_last(), cutoff, hi);
        if bs.last().end_time >= cutoff {
            assert(kept(bs, cutoff) == kept(bs.drop_last(), cutoff).push(bs.last()));
            assert(kept(bs, cutoff).drop_last() =~= kept(bs.drop_last(), cutoff));
        }
    }
}

/// Deleting the blocks that end before `cutoff` changes nothing that a query
/// from `cutoff` on returns.
pub proof fn lemma_cleanup_keeps_later(old_sd: SeriesData, new_sd: SeriesData, cutoff: u64, hi: u64)
    requires
        new_sd.raw@ == old_sd.raw@,
        new_sd.pending@ == old_sd.pending@,
        new_sd.disk@ == kept(old_sd.disk@, cutoff),
        new_sd.archive@ == kept(old_sd.archive@, cutoff),
    ensures
        series_points(new_sd, cutoff, hi) == series_points(old_sd, cutoff, hi),
{
    lemma_blocks_after_cutoff(old_sd.disk@, cutoff, hi);
    lemma_blocks_after_cutoff(old_sd.archive@, cutoff, hi);
}

proof fn lemma_blocks_same(a: Seq<Block>, b: Seq<Block>, lo: u64, hi: u64)
    requires
        a.len() == b.len(),
        forall|j: int| 0 <= j < a.len() ==> same_block(#[trigger] a[j], b[j]),
    ensures
        blocks_points(a, lo, hi) == blocks_points(b, lo, hi),
    decreases a.len(),
{
    if a.len() > 0 {
        lemma_blocks_same(a.drop_last(), b.drop_last(), lo, hi);
        assert(same_block(a.last(), b.last()));
        assert(decode_block_spec(a.last()) == decode_block_spec(b.last()));
    }
}

/// A series rebuilt from copies of its flushed disk and archive tiers answers
/// every query as the flushed series does.
pub proof fn lemma_reload_same(flushed: SeriesData, reloaded: SeriesData, lo: u64, hi: u64)
    requires
        flushed.raw@.len() == 0,
        flushed.pending@.len() == 0,
        reloaded.raw@.len() == 0,
        reloaded.pending@.len() == 0,
        reloaded.disk@.len() == flushed.disk@.len(),
        reloaded.archive@.len() == flushed.archive@.len(),
        forall|j: int| 0 <= j < flushed.disk@.len() ==> same_block(#[trigger] reloaded.disk@[j], flushed.disk@[j]),
        forall|j: int| 0 <= j < flushed.archive@.len() ==> same_block(#[trigger] reloaded.archive@[j], flushed.archive@[j]),
    ensures
        series_points(reloaded, lo, hi) == series_points(flushed, lo, hi),
{
    lemma_blocks_same(reloaded.disk@, flushed.disk@, lo, hi);
    lemma_blocks_same(reloaded.archive@, flushed.archive@, lo, hi);
    assert(reloaded.raw@ =~= flushed.raw@);
}

proof fn lemma_sealed_block_points(b: Block, pts: Seq<DataPoint>, lo: u64, hi: u64)
    requires
        encodes(b, pts),
        encodable(pts),
        pts.len() < usize::MAX / 80,
    ensures
        decode_block_spec(b) == Ok::<Seq<DataPoint>, crate::error::CompressionError>(pts),
        !overlaps(b, lo, hi) ==> range_filter(pts, lo, hi) == Seq::<DataPoint>::empty(),
{
    crate::block::lemma_ts_prefix_len(pts, pts.len() as int);
    crate::block::lemma_val_state_ok(pts, pts.len() as int);
    assert(!oversized(b));
    lemma_block_round_trip(b, pts);
    if !overlaps(b, lo, hi) {
        assert forall|i: int| 0 <= i < pts.len() implies !in_range(#[trigger] pts[i], lo, hi) by {
            assert(pts[0].timestamp <= pts[i].timestamp);
            assert(pts[i].timestamp <= pts[pts.len() - 1].timestamp);
        }
        lemma_filter_nothing(pts, lo, hi);
    }
}

/// Blocks that hold a run of points contribute, after any readable blocks,
/// exactly those points in the range.
proof fn lemma_runs_points(prefix: Seq<Block>, bs: Seq<Block>, pts: Seq<DataPoint>, lo: u64, hi: u64)
    requires
        runs(bs, pts),
        blocks_points(prefix, lo, hi) is Ok,
    ensures
        blocks_points(prefix + bs, lo, hi) == Ok::<Seq<DataPoint>, crate::error::CompressionError>(
            blocks_points(prefix, lo, hi).unwrap() + range_filter(pts, lo, hi),
        ),
    decreases bs.len(),
{
    let a = blocks_points(prefix, lo, hi).unwrap();
    if bs.len() == 0 {
        assert(prefix + bs =~= prefix);
        reveal_with_fuel(Seq::filter, 1);
        assert(a + range_filter(pts, lo, hi) =~= a);
    } else {
        let b = bs.last();
        let k = pts.len() - b.point_count;
        lemma_runs_points(prefix, bs.drop_last(), pts.take(k), lo, hi);
        assert((prefix + bs).drop_last() =~= prefix + bs.drop_last());
        assert((prefix + bs).last() == b);
        lemma_sealed_block_points(b, pts.skip(k), lo, hi);
        lemma_filter_add(pts.take(k), pts.skip(k), lo, hi);
        assert(pts.take(k) + pts.skip(k) =~= pts);
        let f1 = range_filter(pts.take(k), lo, hi);
        let f2 = range_filter(pts.skip(k), lo, hi);
        assert(a + f1 + f2 =~= a + (f1 + f2));
        if !overlaps(b, lo, hi) {
            assert(a + f1 + f2 =~= a + f1);
        }
    }
}

/// The blocks of a flush hold, after the earlier disk and pending blocks, the
/// hot points the flush took, so a flush changes nothing that a query returns.
pub proof fn lemma_flush_keeps_answers(old_sd: SeriesData, new_sd: SeriesData, lo: u64, hi: u64)
    requires
        crate::store::after_flush(old_sd, new_sd),
        series_points(old_sd, lo, hi) is Ok,
    ensures
        series_points(new_sd, lo, hi) == series_points(old_sd, lo, hi),
{
    let a = blocks_points(old_sd.archive@, lo, hi).unwrap();
    let d = blocks_points(old_sd.disk@, lo, hi).unwrap();
    let pd = blocks_points(old_sd.pending@, lo, hi).unwrap();
    let m = (old_sd.disk@.len() + old_sd.pending@.len()) as int;
    lemma_blocks_concat(old_sd.disk@, old_sd.pending@, lo, hi);
    assert(new_sd.disk@ =~= (old_sd.disk@ + old_sd.pending@) + new_sd.disk@.skip(m));
    lemma_runs_points(old_sd.disk@ + old_sd.pending@, new_sd.disk@.skip(m), old_sd.raw@, lo, hi);
    reveal_with_fuel(Seq::filter, 1);
    assert(blocks_points(new_sd.pending@, lo, hi) == Ok::<Seq<DataPoint>, crate::error::CompressionError>(Seq::empty()));
    assert(range_filter(new_sd.raw@, lo, hi) =~= Seq::<DataPoint>::empty());
    assert(series_points(new_sd, lo, hi).unwrap() =~= a + d + pd + range_filter(old_sd.raw@, lo, hi));
}

/// Reading blocks one list after another is reading the two lists in turn.
proof fn lemma_blocks_concat(x: Seq<Block>, y: Seq<Block>, lo: u64, hi: u64)
    requires
        blocks_points(x, lo, hi) is Ok,
        blocks_points(y, lo, hi) is Ok,
    ensures
        blocks_points(x + y, lo, hi) == Ok::<Seq<DataPoint>, crate::error::CompressionError>(
            blocks_points(x, lo, hi).unwrap() + blocks_points(y, lo, hi).unwrap(),
        ),
    decreases y.len(),
{
    let a = blocks_points(x, lo, hi).unwrap();
    if y.len() == 0 {
        assert(x + y =~= x);
        assert(a + Seq::<DataPoint>::empty() =~= a);
    } else {
        lemma_blocks_concat(x, y.drop_last(), lo, hi);
        assert((x + y).drop_last() =~= x + y.drop_last());
        assert((x + y).last() == y.last());
        let c = blocks_points(y.drop_last(), lo, hi).unwrap();
        if overlaps(y.last(), lo, hi) {
            let p = range_filter(decode_block_spec(y.last()).unwrap(), lo, hi);
            assert(a + c + p =~= a + (c + p));
        }
    }
}

/// After a write of `p`, a query of `[lo, hi]` sees at each timestamp what it
/// saw before, except that `p` (when in the range) is now the value at its
/// timestamp; sealing hot points into a block changes nothing of that.
pub proof fn lemma_write_then_read(
    old_sd: SeriesData,
    new_sd: SeriesData,
    raw1: Seq<DataPoint>,
    p: DataPoint,
    cap: nat,
    lo: u64,
    hi: u64,
)
    requires
        strictly_increasing(old_sd.raw@),
        merged(raw1, old_sd.raw@.push(p)),
        after_write(old_sd, new_sd, raw1, cap),
        series_points(old_sd, lo, hi) is Ok,
    ensures
        series_points(new_sd, lo, hi) is Ok,
        forall|k: u64|
            latest(#[trigger] series_points(new_sd, lo, hi).unwrap(), k) == (if in_range(p, lo, hi) && k
                == p.timestamp {
                Some(p.value_bits)
            } else {
                latest(series_points(old_sd, lo, hi).unwrap(), k)
            }),
{
    let a = blocks_points(old_sd.archive@, lo, hi).unwrap();
    let d = blocks_points(old_sd.disk@, lo, hi).unwrap();
    let pd = blocks_points(old_sd.pending@, lo, hi).unwrap();
    let base = a + d + pd;
    let h = seal_count(raw1.len());
    if raw1.len() > cap && h > 0 {
        let np = old_sd.pending@.len() as int;
        assert(new_sd.pending@ =~= old_sd.pending@ + new_sd.pending@.skip(np));
        lemma_runs_points(old_sd.pending@, new_sd.pending@.skip(np), raw1.take(h as int), lo, hi);
        lemma_filter_add(raw1.take(h as int), raw1.skip(h as int), lo, hi);
        assert(raw1.take(h as int) + raw1.skip(h as int) =~= raw1);
        assert(series_points(new_sd, lo, hi).unwrap() =~= base + range_filter(raw1, lo, hi));
    } else {
        assert(series_points(new_sd, lo, hi).unwrap() =~= base + range_filter(raw1, lo, hi));
    }
    let x_new = base + range_filter(raw1, lo, hi);
    let x_old = base + range_filter(old_sd.raw@, lo, hi);
    assert(series_points(old_sd, lo, hi).unwrap() == x_old);
    assert forall|k: u64| true implies latest(x_new, k) == (if in_range(p, lo, hi) && k == p.timestamp {
        Some(p.value_bits)
    } else {
        latest(x_old, k)
    }) by {
        lemma_latest_concat(base, range_filter(raw1, lo, hi), k);
        lemma_latest_concat(base, range_filter(old_sd.raw@, lo, hi), k);
        lemma_latest_filter(raw1, lo, hi, k);
        lemma_latest_filter(old_sd.raw@, lo, hi, k);
        lemma_merged_latest(raw1, old_sd.raw@.push(p), k);
        lemma_latest_push(old_sd.raw@, p, k);
    }
}

proof fn lemma_blocks_none_before(bs: Seq<Block>, cutoff: u64)
    requires
        cutoff > 0,
        forall|j: int| 0 <= j < bs.len() ==> (#[trigger] bs[j]).start_time >= cutoff,
    ensures
        blocks_points(bs, 0, (cutoff - 1) as u64) == Ok::<Seq<DataPoint>, crate::error::CompressionError>(
            Seq::empty(),
        ),
    decreases bs.len(),
{
    if bs.len() > 0 {
        assert forall|j: int| 0 <= j < bs.drop_last().len() implies (#[trigger] bs.drop_last()[j]).start_time
            >= cutoff by {
            assert(bs.drop_last()[j] == bs[j]);
        }
        lemma_blocks_none_before(bs.drop_last(), cutoff);
        assert(bs.last().start_time >= cutoff);
    }
}

/// After deleting the blocks that end before `cutoff`, a query before `cutoff`
/// finds nothing, provided no kept or pending block starts before `cutoff` and
/// no hot point lies before it (a kept block that spans `cutoff` keeps its
/// earlier points, and the memory tiers are not cleaned).
pub proof fn lemma_cleanup_clears_earlier(new_sd: SeriesData, cutoff: u64)
    requires
        cutoff > 0,
        forall|j: int| 0 <= j < new_sd.raw@.len() ==> (#[trigger] new_sd.raw@[j]).timestamp >= cutoff,
        forall|j: int| 0 <= j < new_sd.pending@.len() ==> (#[trigger] new_sd.pending@[j]).start_time >= cutoff,
        forall|j: int| 0 <= j < new_sd.disk@.len() ==> (#[trigger] new_sd.disk@[j]).start_time >= cutoff,
        forall|j: int| 0 <= j < new_sd.archive@.len() ==> (#[trigger] new_sd.archive@[j]).start_time >= cutoff,
    ensures
        series_points(new_sd, 0, (cutoff - 1) as u64) == Ok::<Seq<DataPoint>, crate::error::CompressionError>(
            Seq::empty(),
        ),
{
    let hi = (cutoff - 1) as u64;
    lemma_blocks_none_before(new_sd.disk@, cutoff);
    lemma_blocks_none_before(new_sd.archive@, cutoff);
    lemma_blocks_none_before(new_sd.pending@, cutoff);
    assert forall|i: int| 0 <= i < new_sd.raw@.len() implies !in_range(#[trigger] new_sd.raw@[i], 0, hi) by {
        assert(new_sd.raw@[i].timestamp >= cutoff);
    }
    lemma_filter_nothing(new_sd.raw@, 0, hi);
    assert(Seq::<DataPoint>::empty() + Seq::<DataPoint>::empty() + Seq::<DataPoint>::empty() + Seq::<DataPoint>::empty()
        =~= Seq::<DataPoint>::empty());
}

proof fn lemma_blocks_latest_outside(bs: Seq<Block>, lo: u64, hi: u64, k: u64)
    requires
        blocks_points(bs, lo, hi) is Ok,
        !(lo <= k <= hi),
    ensures
        latest(blocks_points(bs, lo, hi).unwrap(), k) is None,
    decreases bs.len(),
{
    if bs.len() > 0 {
        lemma_blocks_latest_outside(bs.drop_last(), lo, hi, k);
        if overlaps(bs.last(), lo, hi) {
            let y = blocks_points(bs.drop_last(), lo, hi).unwrap();
            let f = range_filter(decode_block_spec(bs.last()).unwrap(), lo, hi);
            lemma_latest_concat(y, f, k);
            lemma_latest_filter(decode_block_spec(bs.last()).unwrap(), lo, hi, k);
        }
    }
}

/// A query of `[lo, hi]` sees no write at a timestamp outside the range.
pub proof fn lemma_series_latest_outside(sd: SeriesData, lo: u64, hi: u64, k: u64)
    requires
        series_points(sd, lo, hi) is Ok,
        !(lo <= k <= hi),
    ensures
        latest(series_points(sd, lo, hi).unwrap(), k) is None,
{
    let a = blocks_points(sd.archive@, lo, hi).unwrap();
    let d = blocks_points(sd.disk@, lo, hi).unwrap();
    let pd = blocks_points(sd.pending@, lo, hi).unwrap();
    lemma_blocks_latest_outside(sd.archive@, lo, hi, k);
    lemma_blocks_latest_outside(sd.disk@, lo, hi, k);
    lemma_blocks_latest_outside(sd.pending@, lo, hi, k);
    lemma_latest_filter(sd.raw@, lo, hi, k);
    lemma_latest_concat(a, d, k);
    lemma_latest_concat(a + d, pd, k);
    lemma_latest_concat(a + d + pd, range_filter(sd.raw@, lo, hi), k);
}

/// After a write of `p`, the merged listing of a query of `[p.timestamp,
/// p.timestamp]` is `p` alone: a second write at a timestamp replaces the first.
pub proof fn lemma_point_query_after_write(
    old_sd: SeriesData,
    new_sd: SeriesData,
    raw1: Seq<DataPoint>,
    p: DataPoint,
    cap: nat,
    r: Seq<DataPoint>,
)
    requires
        strictly_increasing(old_sd.raw@),
        merged(raw1, old_sd.raw@.push(p)),
        after_write(old_sd, new_sd, raw1, cap),
        series_points(old_sd, p.timestamp, p.timestamp) is Ok,
        series_points(new_sd, p.timestamp, p.timestamp) is Ok,
        merged(r, series_points(new_sd, p.timestamp, p.timestamp).unwrap()),
    ensures
        r == seq![p],
{
    let t = p.timestamp;
    lemma_write_then_read(old_sd, new_sd, raw1, p, cap, t, t);
    let x = series_points(new_sd, t, t).unwrap();
    assert(latest(x, t) == Some(p.value_bits));
    let one = seq![p];
    assert forall|k: u64| (#[trigger] latest(x, k)) is Some implies exists|i: int|
        0 <= i < one.len() && one[i].timestamp == k by {
        if k != t {
            lemma_series_latest_outside(new_sd, t, t, k);
        }
        assert(one[0].timestamp == k);
    }
    assert(merged(one, x));
    crate::series::lemma_merged_unique(r, one, x);
}

} // verus!
