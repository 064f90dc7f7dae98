use vstd::prelude::*;
use crate::block::{
    Block,
    DataPoint,
    decode_block_spec,
    encode_runs,
    encodes,
    runs,
    block_query_range,
    range_filter,
    strictly_increasing,
};
use crate::series::{merged, upsert};
use crate::error::{CompressionError, StorageError};

verus! {

/// A block whose time span meets `[lo, hi]`.
pub open spec fn overlaps(b: Block, lo: u64, hi: u64) -> bool {
    b.start_time <= hi && lo <= b.end_time
}

/// The points in `[lo, hi]` of the blocks that meet the range, block after
/// block; the first block that cannot be read fails the whole.
pub open spec fn blocks_points(blocks: Seq<Block>, lo: u64, hi: u64) -> Result<
    Seq<DataPoint>,
    CompressionError,
>
    decreases blocks.len(),
{
    if blocks.len() == 0 {
        Ok(Seq::empty())
    } else {
        match blocks_points(blocks.drop_last(), lo, hi) {
            Err(e) => Err(e),
            Ok(a) => if overlaps(blocks.last(), lo, hi) {
                match decode_block_spec(blocks.last()) {
                    Err(e) => Err(e),
                    Ok(p) => Ok(a + range_filter(p, lo, hi)),
                }
            } else {
                Ok(a)
            },
        }
    }
}

/// One series in every tier: the hot points (ordered by timestamp, one per
/// timestamp), the sealed blocks still in memory, and the blocks of the disk
/// and archive manifests, oldest first.
pub struct SeriesData {
    pub name: String,
    pub raw: Vec<DataPoint>,
    pub pending: Vec<Block>,
    pub disk: Vec<Block>,
    pub archive: Vec<Block>,
}

/// Every write of a series that a query of `[lo, hi]` sees, from the oldest
/// tier to the newest: archive, disk, pending blocks, hot points.
pub open spec fn series_points(sd: SeriesData, lo: u64, hi: u64) -> Result<
    Seq<DataPoint>,
    CompressionError,
> {
    match blocks_points(sd.archive@, lo, hi) {
        Err(e) => Err(e),
        Ok(a) => match blocks_points(sd.disk@, lo, hi) {
            Err(e) => Err(e),
            Ok(d) => match blocks_points(sd.pending@, lo, hi) {
                Err(e) => Err(e),
                Ok(p) => Ok(a + d + p + range_filter(sd.raw@, lo, hi)),
            },
        },
    }
}

/// How many of the oldest hot points are sealed when the buffer overflows.
pub open spec fn seal_count(n: nat) -> nat {
    n / 2
}

/// The state of a series after one write, given `raw1`, its hot points once the
/// write went in: over `cap` points, the oldest half is sealed into new
/// pending blocks (as many as the codec needs).
pub open spec fn after_write(old_sd: SeriesData, new_sd: SeriesData, raw1: Seq<DataPoint>, cap: nat) -> bool {
    let h = seal_count(raw1.len());
    &&& new_sd.name@ == old_sd.name@
    &&& new_sd.disk@ == old_sd.disk@
    &&& new_sd.archive@ == old_sd.archive@
    &&& if raw1.len() > cap && h > 0 {
        &&& new_sd.pending@.len() >= old_sd.pending@.len()
        &&& new_sd.pending@.take(old_sd.pending@.len() as int) == old_sd.pending@
        &&& runs(new_sd.pending@.skip(old_sd.pending@.len() as int), raw1.take(h as int))
        &&& new_sd.raw@ == raw1.skip(h as int)
    } else {
        &&& new_sd.pending@ == old_sd.pending@
        &&& new_sd.raw@ == raw1
    }
}

/// The series at index `i` is named `name`.
pub open spec fn named(ss: Seq<SeriesData>, name: Seq<char>, i: int) -> bool {
    0 <= i < ss.len() && ss[i].name@ == name
}

/// Adds the points of `new`, in order, to a merged listing.
fn merge_points(out: &mut Vec<DataPoint>, new: &Vec<DataPoint>, Ghost(pts): Ghost<Seq<DataPoint>>)
    requires
        merged(old(out)@, pts),
    ensures
        merged(final(out)@, pts + new@),
{
    let mut i: usize = 0;
    while i < new.len()
        invariant
            i <= new@.len(),
            merged(out@, pts + new@.take(i as int)),
        decreases new@.len() - i,
    {
        upsert(out, new[i], Ghost(pts + new@.take(i as int)));
        proof {
            assert((pts + new@.take(i as int)).push(new@[i as int]) =~= pts + new@.take(i + 1));
        }
        i = i + 1;
    }
    proof {
        assert(new@.take(new@.len() as int) =~= new@);
    }
}

/// Adds to a merged listing the points in `[lo, hi]` of the blocks that meet the range.
fn merge_blocks(
    out: &mut Vec<DataPoint>,
    blocks: &Vec<Block>,
    lo: u64,
    hi: u64,
    Ghost(pts): Ghost<Seq<DataPoint>>,
) -> (r: Result<(), CompressionError>)
    requires
        merged(old(out)@, pts),
    ensures
        match blocks_points(blocks@, lo, hi) {
            Ok(x) => r is Ok && merged(final(out)@, pts + x),
            Err(e) => r == Err::<(), CompressionError>(e),
        },
{
    let ghost mut acc: Seq<DataPoint> = Seq::empty();
    proof {
        assert(blocks@.take(0) =~= Seq::<Block>::empty());
        assert(pts + acc =~= pts);
    }
    let mut i: usize = 0;
    while i < blocks.len()
        invariant
            i <= blocks@.len(),
            blocks_points(blocks@.take(i as int), lo, hi) == Ok::<Seq<DataPoint>, CompressionError>(acc),
            merged(out@, pts + acc),
        decreases blocks@.len() - i,
    {
        let b = &blocks[i];
        proof {
            assert(blocks@.take(i + 1).drop_last() =~= blocks@.take(i as int));
            assert(blocks@.take(i + 1).last() == *b);
        }
        if b.start_time <= hi && lo <= b.end_time {
            match block_query_range(b, lo, hi) {
                Err(e) => {
                    proof {
                        lemma_blocks_points_prefix_err(blocks@, i as int, lo, hi, e);
                    }
                    return Err(e);
                },
                Ok(v) => {
                    merge_points(out, &v, Ghost(pts + acc));
                    proof {
                        assert(pts + acc + v@ =~= pts + (acc + v@));
                        acc = acc + v@;
                    }
                },
            }
        }
        i = i + 1;
    }
    proof {
        assert(blocks@.take(blocks@.len() as int) =~= blocks@);
    }
    Ok(())
}

/// Once a prefix of the blocks fails, so do all of them, with the same error.
proof fn lemma_blocks_points_prefix_err(blocks: Seq<Block>, i: int, lo: u64, hi: u64, e: CompressionError)
    requires
        0 <= i < blocks.len(),
        blocks_points(blocks.take(i + 1), lo, hi) == Err::<Seq<DataPoint>, CompressionError>(e),
    ensures
        blocks_points(blocks, lo, hi) == Err::<Seq<DataPoint>, CompressionError>(e),
    decreases blocks.len() - i,
{
    if i + 1 < blocks.len() {
        assert(blocks.take(i + 2).drop_last() =~= blocks.take(i + 1));
        lemma_blocks_points_prefix_err(blocks, i + 1, lo, hi, e);
    } else {
        assert(blocks.take(i + 1) =~= blocks);
    }
}

/// Writes `p` into the hot points of a series, then seals the oldest half of
/// them into a pending block when there are more than `cap`.
fn write_point(sd: &mut SeriesData, p: DataPoint, cap: usize)
    requires
        strictly_increasing(old(sd).raw@),
    ensures
        strictly_increasing(final(sd).raw@),
        exists|raw1: Seq<DataPoint>|
            merged(raw1, old(sd).raw@.push(p)) && after_write(*old(sd), *final(sd), raw1, cap as nat),
{
    let ghost old_raw = sd.raw@;
    proof {
        lemma_sorted_is_merged(old_raw);
    }
    upsert(&mut sd.raw, p, Ghost(old_raw));
    let ghost raw1 = sd.raw@;
    let n = sd.raw.len();
    let h = n / 2;
    if n > cap && h > 0 {
        let mut head: Vec<DataPoint> = Vec::new();
        let mut i: usize = 0;
        while i < h
            invariant
                i <= h <= n,
                n == sd.raw@.len(),
                head@ == sd.raw@.take(i as int),
            decreases h - i,
        {
            head.push(sd.raw[i]);
            proof {
                assert(sd.raw@.take(i + 1) =~= sd.raw@.take(i as int).push(sd.raw@[i as int]));
            }
            i = i + 1;
        }
        proof {
            assert forall|a: int, b: int| 0 <= a <= b < head@.len() implies head@[a].timestamp
                <= head@[b].timestamp by {
                if a < b {
                    assert(raw1[a].timestamp < raw1[b].timestamp);
                }
            }
        }
        let bs = encode_runs(&head);
        let tail = sd.raw.split_off(h);
        sd.raw = tail;
        let ghost old_pending = sd.pending@;
        append_blocks(&mut sd.pending, bs);
        proof {
            assert(head@ =~= raw1.take(h as int));
            assert(sd.raw@ =~= raw1.skip(h as int));
            assert(sd.pending@.take(old_pending.len() as int) =~= old_pending);
            assert(sd.pending@.skip(old_pending.len() as int) =~= bs@);
            assert forall|a: int, b: int| 0 <= a < b < sd.raw@.len() implies sd.raw@[a].timestamp
                < sd.raw@[b].timestamp by {
                assert(sd.raw@[a] == raw1[a + h]);
                assert(sd.raw@[b] == raw1[b + h]);
            }
        }
    }
    proof {
        assert(after_write(*old(sd), *sd, raw1, cap as nat));
    }
}

/// A strictly ordered listing is the merged listing of itself.
pub proof fn lemma_sorted_is_merged(s: Seq<DataPoint>)
    requires
        strictly_increasing(s),
    ensures
        merged(s, s),
    decreases s.len(),
{
    if s.len() > 0 {
        let t = s.drop_last();
        assert(strictly_increasing(t));
        lemma_sorted_is_merged(t);
        assert(t.push(s.last()) =~= s);
        assert forall|k: u64| true implies crate::series::latest(s, k) == (if k == s.last().timestamp {
            Some(s.last().value_bits)
        } else {
            crate::series::latest(t, k)
        }) by {
            crate::series::lemma_latest_push(t, s.last(), k);
        }
        assert forall|i: int| 0 <= i < s.len() implies crate::series::latest(
            s,
            #[trigger] s[i].timestamp,
        ) == Some(s[i].value_bits) by {
            if i < s.len() - 1 {
                assert(s[i].timestamp < s.last().timestamp);
                assert(t[i] == s[i]);
            }
        }
        assert forall|k: u64| (#[trigger] crate::series::latest(s, k)) is Some implies exists|i: int|
            0 <= i < s.len() && s[i].timestamp == k by {
            if k == s.last().timestamp {
                assert(s[s.len() - 1].timestamp == k);
            } else {
                assert(crate::series::latest(t, k) is Some);
                let i = choose|i: int| 0 <= i < t.len() && t[i].timestamp == k;
                assert(s[i].timestamp == k);
            }
        }
    }
}

/// The single-node storage engine: every series in every tier. It performs no
/// I/O itself; its caller persists the disk and archive tiers and loads them back.
pub struct Engine {
    series: Vec<SeriesData>,
    memory_buffer_size: usize,
    archive_enabled: bool,
}

impl Engine {
    pub closed spec fn wf(&self) -> bool {
        &&& self.memory_buffer_size > 0
        &&& forall|i: int| 0 <= i < self.series@.len() ==> strictly_increasing(#[trigger] self.series@[i].raw@)
        &&& forall|i: int, j: int|
            0 <= i < j < self.series@.len() ==> self.series@[i].name@ != self.series@[j].name@
    }

    /// Every series held, in the order they were first written.
    pub closed spec fn all_series(&self) -> Seq<SeriesData> {
        self.series@
    }

    /// How many hot points a series keeps before it seals the oldest half.
    pub closed spec fn buffer_size(&self) -> nat {
        self.memory_buffer_size as nat
    }

    pub closed spec fn archiving(&self) -> bool {
        self.archive_enabled
    }

    /// An engine that holds nothing.
    pub fn new(memory_buffer_size: usize, archive_enabled: bool) -> (r: Engine)
        requires
            memory_buffer_size > 0,
        ensures
            r.wf(),
            r.all_series().len() == 0,
            r.buffer_size() == memory_buffer_size,
            r.archiving() == archive_enabled,
    {
        Engine { series: Vec::new(), memory_buffer_size, archive_enabled }
    }

    fn find_series(&self, name: &String) -> (r: Option<usize>)
        requires
            self.wf(),
        ensures
            match r {
                Some(i) => named(self.all_series(), name@, i as int),
                None => forall|i: int| !named(self.all_series(), name@, i),
            },
    {
        let mut i: usize = 0;
        while i < self.series.len()
            invariant
                i <= self.series@.len(),
                forall|j: int| 0 <= j < i ==> !named(self.series@, name@, j),
            decreases self.series@.len() - i,
        {
            if self.series[i].name == *name {
                return Some(i);
            }
            i = i + 1;
        }
        None
    }

    /// Writes a point. A point at a timestamp that the hot points already hold
    /// replaces it; the oldest half of the hot points is sealed into a pending
    /// block once they number more than the buffer size.
    pub fn insert(&mut self, series: &String, point: DataPoint) -> (r: Result<(), StorageError>)
        requires
            old(self).wf(),
        ensures
            r is Ok,
            final(self).wf(),
            final(self).buffer_size() == old(self).buffer_size(),
            final(self).archiving() == old(self).archiving(),
            final(self).all_series().len() >= old(self).all_series().len(),
            forall|i: int| named(old(self).all_series(), series@, i) ==> {
                &&& final(self).all_series().len() == old(self).all_series().len()
                &&& forall|j: int| 0 <= j < old(self).all_series().len() && j != i ==> #[trigger] final(self).all_series()[j]
                    == old(self).all_series()[j]
                &&& exists|raw1: Seq<DataPoint>|
                    merged(raw1, old(self).all_series()[i].raw@.push(point)) && after_write(
                        old(self).all_series()[i],
                        final(self).all_series()[i],
                        raw1,
                        old(self).buffer_size(),
                    )
            },
            (forall|i: int| !named(old(self).all_series(), series@, i)) ==> {
                let n = old(self).all_series().len();
                &&& final(self).all_series().len() == n + 1
                &&& forall|j: int| 0 <= j < n ==> #[trigger] final(self).all_series()[j] == old(self).all_series()[j]
                &&& final(self).all_series()[n as int].name@ == series@
                &&& final(self).all_series()[n as int].raw@ == seq![point]
                &&& final(self).all_series()[n as int].pending@.len() == 0
                &&& final(self).all_series()[n as int].disk@.len() == 0
                &&& final(self).all_series()[n as int].archive@.len() == 0
            },
    {
        match self.find_series(series) {
            None => {
                let mut raw: Vec<DataPoint> = Vec::new();
                raw.push(point);
                self.series.push(
                    SeriesData {
                        name: series.clone(),
                        raw,
                        pending: Vec::new(),
                        disk: Vec::new(),
                        archive: Vec::new(),
                    },
                );
                proof {
                    let ss = self.series@;
                    assert forall|a: int, b: int| 0 <= a < b < ss.len() implies ss[a].name@ != ss[b].name@ by {
                        if b == ss.len() - 1 {
                            assert(!named(old(self).all_series(), series@, a));
                        }
                    }
                }
            },
            Some(i) => {
                let mut sd = self.series.remove(i);
                let cap = self.memory_buffer_size;
                proof {
                    assert(old(self).series@[i as int] == sd);
                }
                write_point(&mut sd, point, cap);
                self.series.insert(i, sd);
                proof {
                    let ss = self.series@;
                    let os = old(self).series@;
                    assert forall|j: int| 0 <= j < os.len() && j != i implies #[trigger] ss[j] == os[j] by {
                        os.remove_ensures(i as int);
                        os.remove(i as int).insert_ensures(i as int, sd);
                        if j < i {
                            assert(ss[j] == os.remove(i as int)[j]);
                        } else {
                            assert(ss[j] == os.remove(i as int).insert(i as int, sd)[(j - 1) + 1]);
                            assert(os.remove(i as int)[j - 1] == os[j]);
                        }
                    }
                    assert forall|j: int| named(os, series@, j) implies j == i by {
                        if j != i {
                            if j < i {
                                assert(os[j].name@ != os[i as int].name@);
                            } else {
                                assert(os[i as int].name@ != os[j].name@);
                            }
                        }
                    }
                    assert forall|j: int| 0 <= j < ss.len() implies strictly_increasing(#[trigger] ss[j].raw@) by {
                        if j != i {
                            assert(ss[j] == os[j]);
                        }
                    }
                    assert forall|a: int, b: int| 0 <= a < b < ss.len() implies ss[a].name@ != ss[b].name@ by {
                        if a != i && b != i {
                            assert(ss[a] == os[a] && ss[b] == os[b]);
                        } else if a == i {
                            assert(ss[b] == os[b]);
                        } else {
                            assert(ss[a] == os[a]);
                        }
                    }
                }
            },
        }
        Ok(())
    }

    /// The points of `series` with timestamps in `[lo, hi]`: ascending, one per
    /// timestamp, the newest tier's write winning (hot points, then pending
    /// blocks, then disk, then archive; later blocks over earlier ones).
    pub fn query_range(&self, series: &String, lo: u64, hi: u64) -> (r: Result<
        Vec<DataPoint>,
        StorageError,
    >)
        requires
            self.wf(),
        ensures
            lo > hi ==> (r matches Err(StorageError::InvalidTimeRange(a, b)) && a == lo && b == hi),
            lo <= hi && (forall|i: int| !named(self.all_series(), series@, i)) ==> (r matches Ok(v)
                && v@.len() == 0),
            lo <= hi ==> forall|i: int|
                named(self.all_series(), series@, i) ==> match series_points(
                    self.all_series()[i],
                    lo,
                    hi,
                ) {
                    Ok(pts) => r matches Ok(v) && merged(v@, pts),
                    Err(e) => r matches Err(StorageError::CompressionError(e2)) && e2 == e,
                },
    {
        if lo > hi {
            return Err(StorageError::InvalidTimeRange(lo, hi));
        }
        match self.find_series(series) {
            None => Ok(Vec::new()),
            Some(i) => {
                let sd = &self.series[i];
                let mut out: Vec<DataPoint> = Vec::new();
                let ghost e0: Seq<DataPoint> = Seq::empty();
                match merge_blocks(&mut out, &sd.archive, lo, hi, Ghost(e0)) {
                    Err(e) => {
                        return Err(StorageError::CompressionError(e));
                    },
                    Ok(()) => {},
                }
                let ghost a = blocks_points(sd.archive@, lo, hi).unwrap();
                match merge_blocks(&mut out, &sd.disk, lo, hi, Ghost(e0 + a)) {
                    Err(e) => {
                        return Err(StorageError::CompressionError(e));
                    },
                    Ok(()) => {},
                }
                let ghost d = blocks_points(sd.disk@, lo, hi).unwrap();
                match merge_blocks(&mut out, &sd.pending, lo, hi, Ghost(e0 + a + d)) {
                    Err(e) => {
                        return Err(StorageError::CompressionError(e));
                    },
                    Ok(()) => {},
                }
                let ghost pd = blocks_points(sd.pending@, lo, hi).unwrap();
                let hot = Self::hot_in_range(&sd.raw, lo, hi);
                merge_points(&mut out, &hot, Ghost(e0 + a + d + pd));
                proof {
                    assert(e0 + a =~= a);
                    assert forall|j: int| named(self.series@, series@, j) implies j == i by {
                        if j != i {
                            if j < i {
                                assert(self.series@[j].name@ != self.series@[i as int].name@);
                            } else {
                                assert(self.series@[i as int].name@ != self.series@[j].name@);
                            }
                        }
                    }
                }
                Ok(out)
            },
        }
    }

    fn hot_in_range(raw: &Vec<DataPoint>, lo: u64, hi: u64) -> (r: Vec<DataPoint>)
        ensures
            r@ == range_filter(raw@, lo, hi),
    {
        let mut out: Vec<DataPoint> = Vec::new();
        let mut i: usize = 0;
        while i < raw.len()
            invariant
                i <= raw@.len(),
                out@ == range_filter(raw@.take(i as int), lo, hi),
            decreases raw@.len() - i,
        {
            let p = raw[i];
            if lo <= p.timestamp && p.timestamp <= hi {
                out.push(p);
            }
            proof {
                assert(raw@.take(i + 1).drop_last() =~= raw@.take(i as int));
                assert(raw@.take(i + 1).last() == p);
                reveal_with_fuel(Seq::filter, 1);
            }
            i = i + 1;
        }
        proof {
            assert(raw@.take(raw@.len() as int) =~= raw@);
        }
        out
    }
}


/// The blocks that end before `cutoff`.
pub open spec fn older(blocks: Seq<Block>, cutoff: u64) -> Seq<Block> {
    blocks.filter(|b: Block| b.end_time < cutoff)
}

/// The blocks that end at or after `cutoff`.
pub open spec fn kept(blocks: Seq<Block>, cutoff: u64) -> Seq<Block> {
    blocks.filter(|b: Block| b.end_time >= cutoff)
}

/// How many disk and archive blocks, over all series, end before `cutoff`.
pub open spec fn expired_count(ss: Seq<SeriesData>, cutoff: u64) -> nat
    decreases ss.len(),
{
    if ss.len() == 0 {
        0
    } else {
        expired_count(ss.drop_last(), cutoff) + older(ss.last().disk@, cutoff).len() + older(
            ss.last().archive@,
            cutoff,
        ).len()
    }
}

/// How many disk blocks, over all series, end before `cutoff`.
pub open spec fn archivable_count(ss: Seq<SeriesData>, cutoff: u64) -> nat
    decreases ss.len(),
{
    if ss.len() == 0 {
        0
    } else {
        archivable_count(ss.drop_last(), cutoff) + older(ss.last().disk@, cutoff).len()
    }
}

pub open spec fn capped(n: nat) -> usize {
    if n > usize::MAX {
        usize::MAX
    } else {
        n as usize
    }
}

/// The outcome of archiving with `cutoff`: when archiving is on, each series'
/// disk blocks that end before `cutoff` move, in order, to the end of its
/// archive tier, and `count` says how many moved; otherwise nothing changes.
pub open spec fn archived(old_ss: Seq<SeriesData>, new_ss: Seq<SeriesData>, on: bool, cutoff: u64, count: usize) -> bool {
    &&& new_ss.len() == old_ss.len()
    &&& !on ==> count == 0 && new_ss == old_ss
    &&& on ==> count == capped(archivable_count(old_ss, cutoff))
    &&& on ==> forall|i: int|
        0 <= i < old_ss.len() ==> {
            let o = #[trigger] old_ss[i];
            let n = new_ss[i];
            &&& n.name@ == o.name@
            &&& n.raw@ == o.raw@
            &&& n.pending@ == o.pending@
            &&& n.disk@ == kept(o.disk@, cutoff)
            &&& n.archive@ == o.archive@ + older(o.disk@, cutoff)
        }
}

/// A flush of one series: every pending block moves to the disk tier, then its
/// hot points, sealed into as many blocks as the codec needs; nothing stays in memory.
pub open spec fn after_flush(old_sd: SeriesData, new_sd: SeriesData) -> bool {
    &&& new_sd.name@ == old_sd.name@
    &&& new_sd.archive@ == old_sd.archive@
    &&& new_sd.pending@.len() == 0
    &&& new_sd.raw@.len() == 0
    &&& new_sd.disk@.len() >= old_sd.disk@.len() + old_sd.pending@.len()
    &&& new_sd.disk@.take((old_sd.disk@.len() + old_sd.pending@.len()) as int) == old_sd.disk@ + old_sd.pending@
    &&& runs(new_sd.disk@.skip((old_sd.disk@.len() + old_sd.pending@.len()) as int), old_sd.raw@)
}

/// Splits blocks by whether they end before `cutoff`, keeping their order.
fn split_older(blocks: Vec<Block>, cutoff: u64) -> (r: (Vec<Block>, Vec<Block>))
    ensures
        r.0@ == older(blocks@, cutoff),
        r.1@ == kept(blocks@, cutoff),
{
    let ghost orig = blocks@;
    let mut rest = blocks;
    let mut old_ones: Vec<Block> = Vec::new();
    let mut keep: Vec<Block> = Vec::new();
    let ghost mut i: int = 0;
    while rest.len() > 0
        invariant
            0 <= i <= orig.len(),
            rest@ == orig.skip(i),
            old_ones@ == older(orig.take(i), cutoff),
            keep@ == kept(orig.take(i), cutoff),
        decreases rest@.len(),
    {
        let b = rest.remove(0);
        proof {
            assert(orig.take(i + 1).drop_last() =~= orig.take(i));
            assert(orig.skip(i)[0] == orig[i]);
            assert(orig.take(i + 1).last() == b);
            reveal_with_fuel(Seq::filter, 1);
        }
        if b.end_time < cutoff {
            old_ones.push(b);
        } else {
            keep.push(b);
        }
        proof {
            assert(rest@ =~= orig.skip(i + 1));
            i = i + 1;
        }
    }
    proof {
        assert(orig.take(i) =~= orig);
    }
    (old_ones, keep)
}

fn append_blocks(dst: &mut Vec<Block>, src: Vec<Block>)
    ensures
        final(dst)@ == old(dst)@ + src@,
{
    let mut src = src;
    dst.append(&mut src);
}

fn flush_series(sd: &mut SeriesData)
    requires
        strictly_increasing(old(sd).raw@),
    ensures
        after_flush(*old(sd), *final(sd)),
{
    let mut pending: Vec<Block> = Vec::new();
    std::mem::swap(&mut pending, &mut sd.pending);
    append_blocks(&mut sd.disk, pending);
    let ghost moved = sd.disk@;
    proof {
        assert forall|a: int, b: int| 0 <= a <= b < sd.raw@.len() implies sd.raw@[a].timestamp
            <= sd.raw@[b].timestamp by {
            if a < b {
                assert(sd.raw@[a].timestamp < sd.raw@[b].timestamp);
            }
        }
    }
    let bs = encode_runs(&sd.raw);
    append_blocks(&mut sd.disk, bs);
    sd.raw = Vec::new();
    proof {
        assert(sd.disk@.take(moved.len() as int) =~= moved);
        assert(sd.disk@.skip(moved.len() as int) =~= bs@);
    }
}

impl Engine {
    /// Flushes every series, as `after_flush` describes.
    pub fn force_flush(&mut self) -> (r: Result<(), StorageError>)
        requires
            old(self).wf(),
        ensures
            r is Ok,
            final(self).wf(),
            final(self).buffer_size() == old(self).buffer_size(),
            final(self).archiving() == old(self).archiving(),
            final(self).all_series().len() == old(self).all_series().len(),
            forall|i: int|
                0 <= i < old(self).all_series().len() ==> after_flush(
                    #[trigger] old(self).all_series()[i],
                    final(self).all_series()[i],
                ),
    {
        let mut rest: Vec<SeriesData> = Vec::new();
        std::mem::swap(&mut rest, &mut self.series);
        let ghost orig = rest@;
        let ghost mut i: int = 0;
        while rest.len() > 0
            invariant
                0 <= i <= orig.len(),
                rest@ == orig.skip(i),
                self.series@.len() == i,
                self.memory_buffer_size == old(self).memory_buffer_size,
                self.archive_enabled == old(self).archive_enabled,
                orig == old(self).series@,
                old(self).wf(),
                forall|j: int| 0 <= j < i ==> after_flush(#[trigger] orig[j], self.series@[j]),
                forall|j: int| 0 <= j < i ==> strictly_increasing(#[trigger] self.series@[j].raw@),
            decreases rest@.len(),
        {
            let mut sd = rest.remove(0);
            proof {
                assert(orig.skip(i)[0] == orig[i]);
                assert(strictly_increasing(orig[i].raw@));
            }
            flush_series(&mut sd);
            self.series.push(sd);
            proof {
                assert(rest@ =~= orig.skip(i + 1));
                assert(strictly_increasing(orig[i].raw@));
                i = i + 1;
            }
        }
        proof {
            let ss = self.series@;
            assert forall|a: int, b: int| 0 <= a < b < ss.len() implies ss[a].name@ != ss[b].name@ by {
                assert(after_flush(orig[a], ss[a]));
                assert(after_flush(orig[b], ss[b]));
            }
        }
        Ok(())
    }

    /// Moves the disk blocks that end before `cutoff` to the archive tier, in
    /// order, and returns how many moved; nothing moves when archiving is off.
    pub fn force_archive(&mut self, cutoff: u64) -> (r: usize)
        requires
            old(self).wf(),
        ensures
            final(self).wf(),
            final(self).buffer_size() == old(self).buffer_size(),
            final(self).archiving() == old(self).archiving(),
            final(self).all_series().len() == old(self).all_series().len(),
            archived(old(self).all_series(), final(self).all_series(), old(self).archiving(), cutoff, r),
    {
        if !self.archive_enabled {
            return 0;
        }
        let mut rest: Vec<SeriesData> = Vec::new();
        std::mem::swap(&mut rest, &mut self.series);
        let ghost orig = rest@;
        let ghost mut i: int = 0;
        let mut count: usize = 0;
        while rest.len() > 0
            invariant
                0 <= i <= orig.len(),
                rest@ == orig.skip(i),
                self.series@.len() == i,
                self.memory_buffer_size == old(self).memory_buffer_size,
                self.archive_enabled == old(self).archive_enabled,
                orig == old(self).series@,
                old(self).wf(),
                count == capped(archivable_count(orig.take(i), cutoff)),
                forall|j: int|
                    0 <= j < i ==> {
                        let o = #[trigger] orig[j];
                        let n = self.series@[j];
                        &&& n.name@ == o.name@
                        &&& n.raw@ == o.raw@
                        &&& n.pending@ == o.pending@
                        &&& n.disk@ == kept(o.disk@, cutoff)
                        &&& n.archive@ == o.archive@ + older(o.disk@, cutoff)
                    },
            decreases rest@.len(),
        {
            let sd = rest.remove(0);
            proof {
                assert(orig.skip(i)[0] == orig[i]);
                assert(orig.take(i + 1).drop_last() =~= orig.take(i));
            }
            let SeriesData { name, raw, pending, disk, archive } = sd;
            let (moved, keep) = split_older(disk, cutoff);
            let moved_n = moved.len();
            let mut archive = archive;
            append_blocks(&mut archive, moved);
            count = if count > usize::MAX - moved_n { usize::MAX } else { count + moved_n };
            self.series.push(SeriesData { name, raw, pending, disk: keep, archive });
            proof {
                assert(rest@ =~= orig.skip(i + 1));
                i = i + 1;
            }
        }
        proof {
            assert(orig.take(i) =~= orig);
            let ss = self.series@;
            assert forall|a: int, b: int| 0 <= a < b < ss.len() implies ss[a].name@ != ss[b].name@ by {
                assert(ss[a].name@ == orig[a].name@);
                assert(ss[b].name@ == orig[b].name@);
            }
            assert forall|j: int| 0 <= j < ss.len() implies strictly_increasing(#[trigger] ss[j].raw@) by {
                assert(ss[j].raw@ == orig[j].raw@);
            }
        }
        count
    }

    /// Deletes, from the disk and archive tiers, the blocks that end before
    /// `cutoff` (whole blocks only), and returns how many went.
    pub fn cleanup_old_data(&mut self, cutoff: u64) -> (r: usize)
        requires
            old(self).wf(),
        ensures
            final(self).wf(),
            final(self).buffer_size() == old(self).buffer_size(),
            final(self).archiving() == old(self).archiving(),
            final(self).all_series().len() == old(self).all_series().len(),
            r == capped(expired_count(old(self).all_series(), cutoff)),
            forall|i: int|
                0 <= i < old(self).all_series().len() ==> {
                    let o = #[trigger] old(self).all_series()[i];
                    let n = final(self).all_series()[i];
                    &&& n.name@ == o.name@
                    &&& n.raw@ == o.raw@
                    &&& n.pending@ == o.pending@
                    &&& n.disk@ == kept(o.disk@, cutoff)
                    &&& n.archive@ == kept(o.archive@, cutoff)
                },
    {
        let mut rest: Vec<SeriesData> = Vec::new();
        std::mem::swap(&mut rest, &mut self.series);
        let ghost orig = rest@;
        let ghost mut i: int = 0;
        let mut count: usize = 0;
        while rest.len() > 0
            invariant
                0 <= i <= orig.len(),
                rest@ == orig.skip(i),
                self.series@.len() == i,
                self.memory_buffer_size == old(self).memory_buffer_size,
                self.archive_enabled == old(self).archive_enabled,
                orig == old(self).series@,
                old(self).wf(),
                count == capped(expired_count(orig.take(i), cutoff)),
                forall|j: int|
                    0 <= j < i ==> {
                        let o = #[trigger] orig[j];
                        let n = self.series@[j];
                        &&& n.name@ == o.name@
                        &&& n.raw@ == o.raw@
                        &&& n.pending@ == o.pending@
                        &&& n.disk@ == kept(o.disk@, cutoff)
                        &&& n.archive@ == kept(o.archive@, cutoff)
                    },
            decreases rest@.len(),
        {
            let sd = rest.remove(0);
            proof {
                assert(orig.skip(i)[0] == orig[i]);
                assert(orig.take(i + 1).drop_last() =~= orig.take(i));
            }
            let SeriesData { name, raw, pending, disk, archive } = sd;
            let (gone_disk, keep_disk) = split_older(disk, cutoff);
            let (gone_archive, keep_archive) = split_older(archive, cutoff);
            let a = gone_disk.len();
            let b = gone_archive.len();
            count = if count > usize::MAX - a { usize::MAX } else { count + a };
            count = if count > usize::MAX - b { usize::MAX } else { count + b };
            self.series.push(SeriesData { name, raw, pending, disk: keep_disk, archive: keep_archive });
            proof {
                assert(rest@ =~= orig.skip(i + 1));
                i = i + 1;
            }
        }
        proof {
            assert(orig.take(i) =~= orig);
            let ss = self.series@;
            assert forall|a: int, b: int| 0 <= a < b < ss.len() implies ss[a].name@ != ss[b].name@ by {
                assert(ss[a].name@ == orig[a].name@);
                assert(ss[b].name@ == orig[b].name@);
            }
            assert forall|j: int| 0 <= j < ss.len() implies strictly_increasing(#[trigger] ss[j].raw@) by {
                assert(ss[j].raw@ == orig[j].raw@);
            }
        }
        count
    }
}


/// A series that the disk or the archive tier holds blocks of.
pub open spec fn persisted(sd: SeriesData) -> bool {
    sd.disk@.len() > 0 || sd.archive@.len() > 0
}

/// The same block, field for field.
pub open spec fn same_block(a: Block, b: Block) -> bool {
    &&& a.start_time == b.start_time
    &&& a.end_time == b.end_time
    &&& a.point_count == b.point_count
    &&& a.first_value == b.first_value
    &&& a.compressed_timestamps@ == b.compressed_timestamps@
    &&& a.compressed_values@ == b.compressed_values@
}

pub fn copy_block(b: &Block) -> (r: Block)
    ensures
        same_block(r, *b),
{
    Block {
        start_time: b.start_time,
        end_time: b.end_time,
        point_count: b.point_count,
        first_value: b.first_value,
        compressed_timestamps: b.compressed_timestamps.clone(),
        compressed_values: b.compressed_values.clone(),
    }
}

fn copy_blocks(bs: &Vec<Block>) -> (r: Vec<Block>)
    ensures
        r@.len() == bs@.len(),
        forall|i: int| 0 <= i < bs@.len() ==> same_block(#[trigger] r@[i], bs@[i]),
{
    let mut out: Vec<Block> = Vec::new();
    let mut i: usize = 0;
    while i < bs.len()
        invariant
            i <= bs@.len(),
            out@.len() == i,
            forall|j: int| 0 <= j < i ==> same_block(#[trigger] out@[j], bs@[j]),
        decreases bs@.len() - i,
    {
        out.push(copy_block(&bs[i]));
        i = i + 1;
    }
    out
}

impl Engine {
    /// The names of the series that the disk or archive tier holds, in the
    /// order the series were first seen.
    pub fn list_series(&self) -> (r: Vec<String>)
        requires
            self.wf(),
        ensures
            r@.map_values(|s: String| s@) == self.all_series().filter(|sd: SeriesData| persisted(sd)).map_values(
                |sd: SeriesData| sd.name@,
            ),
    {
        let mut out: Vec<String> = Vec::new();
        let mut i: usize = 0;
        while i < self.series.len()
            invariant
                i <= self.series@.len(),
                out@.map_values(|s: String| s@) == self.series@.take(i as int).filter(
                    |sd: SeriesData| persisted(sd),
                ).map_values(|sd: SeriesData| sd.name@),
            decreases self.series@.len() - i,
        {
            let sd = &self.series[i];
            proof {
                assert(self.series@.take(i + 1).drop_last() =~= self.series@.take(i as int));
                assert(self.series@.take(i + 1).last() == *sd);
                reveal_with_fuel(Seq::filter, 1);
            }
            if sd.disk.len() > 0 || sd.archive.len() > 0 {
                let ghost before = out@;
                out.push(sd.name.clone());
                proof {
                    assert(out@.map_values(|s: String| s@) =~= before.map_values(|s: String| s@).push(sd.name@));
                    let f = self.series@.take(i as int).filter(|sd: SeriesData| persisted(sd));
                    assert(f.push(*sd).map_values(|sd: SeriesData| sd.name@) =~= f.map_values(
                        |sd: SeriesData| sd.name@,
                    ).push(sd.name@));
                }
            }
            i = i + 1;
        }
        proof {
            assert(self.series@.take(self.series@.len() as int) =~= self.series@);
        }
        out
    }

    /// Adds blocks read back from the disk and archive manifests of a series,
    /// after those it already holds.
    pub fn load_series(&mut self, series: &String, disk: Vec<Block>, archive: Vec<Block>)
        requires
            old(self).wf(),
        ensures
            final(self).wf(),
            final(self).buffer_size() == old(self).buffer_size(),
            final(self).archiving() == old(self).archiving(),
            forall|i: int| named(old(self).all_series(), series@, i) ==> {
                &&& final(self).all_series().len() == old(self).all_series().len()
                &&& forall|j: int| 0 <= j < old(self).all_series().len() && j != i ==> #[trigger] final(self).all_series()[j]
                    == old(self).all_series()[j]
                &&& final(self).all_series()[i].name@ == series@
                &&& final(self).all_series()[i].raw@ == old(self).all_series()[i].raw@
                &&& final(self).all_series()[i].pending@ == old(self).all_series()[i].pending@
                &&& final(self).all_series()[i].disk@ == old(self).all_series()[i].disk@ + disk@
                &&& final(self).all_series()[i].archive@ == old(self).all_series()[i].archive@ + archive@
            },
            (forall|i: int| !named(old(self).all_series(), series@, i)) ==> {
                let n = old(self).all_series().len();
                &&& final(self).all_series().len() == n + 1
                &&& forall|j: int| 0 <= j < n ==> #[trigger] final(self).all_series()[j] == old(self).all_series()[j]
                &&& final(self).all_series()[n as int].name@ == series@
                &&& final(self).all_series()[n as int].raw@.len() == 0
                &&& final(self).all_series()[n as int].pending@.len() == 0
                &&& final(self).all_series()[n as int].disk@ == disk@
                &&& final(self).all_series()[n as int].archive@ == archive@
            },
    {
        match self.find_series(series) {
            None => {
                self.series.push(
                    SeriesData { name: series.clone(), raw: Vec::new(), pending: Vec::new(), disk, archive },
                );
                proof {
                    let ss = self.series@;
                    assert forall|a: int, b: int| 0 <= a < b < ss.len() implies ss[a].name@ != ss[b].name@ by {
                        if b == ss.len() - 1 {
                            assert(!named(old(self).all_series(), series@, a));
                        }
                    }
                }
            },
            Some(i) => {
                let sd = self.series.remove(i);
                let SeriesData { name, raw, pending, disk: d0, archive: a0 } = sd;
                let mut d = d0;
                let mut a = a0;
                append_blocks(&mut d, disk);
                append_blocks(&mut a, archive);
                let nsd = SeriesData { name, raw, pending, disk: d, archive: a };
                self.series.insert(i, nsd);
                proof {
                    let ss = self.series@;
                    let os = old(self).series@;
                    assert forall|j: int| 0 <= j < os.len() && j != i implies #[trigger] ss[j] == os[j] by {
                        os.remove_ensures(i as int);
                        os.remove(i as int).insert_ensures(i as int, nsd);
                        if j < i {
                            assert(ss[j] == os.remove(i as int)[j]);
                        } else {
                            assert(ss[j] == os.remove(i as int).insert(i as int, nsd)[(j - 1) + 1]);
                            assert(os.remove(i as int)[j - 1] == os[j]);
                        }
                    }
                    assert forall|j: int| named(os, series@, j) implies j == i by {
                        if j != i {
                            if j < i {
                                assert(os[j].name@ != os[i as int].name@);
                            } else {
                                assert(os[i as int].name@ != os[j].name@);
                            }
                        }
                    }
                    assert forall|j: int| 0 <= j < ss.len() implies strictly_increasing(#[trigger] ss[j].raw@) by {
                        if j != i {
                            assert(ss[j] == os[j]);
                        }
                    }
                    assert forall|a: int, b: int| 0 <= a < b < ss.len() implies ss[a].name@ != ss[b].name@ by {
                        if a != i && b != i {
                            assert(ss[a] == os[a] && ss[b] == os[b]);
                        } else if a == i {
                            assert(ss[b] == os[b]);
                        } else {
                            assert(ss[a] == os[a]);
                        }
                    }
                }
            },
        }
    }

    /// Copies of the disk blocks of a series, in manifest order; none for an
    /// unknown series.
    pub fn disk_blocks(&self, series: &String) -> (r: Vec<Block>)
        requires
            self.wf(),
        ensures
            (forall|i: int| !named(self.all_series(), series@, i)) ==> r@.len() == 0,
            forall|i: int|
                named(self.all_series(), series@, i) ==> r@.len() == self.all_series()[i].disk@.len()
                    && forall|j: int| 0 <= j < r@.len() ==> same_block(#[trigger] r@[j], self.all_series()[i].disk@[j]),
    {
        match self.find_series(series) {
            None => Vec::new(),
            Some(i) => {
                proof {
                    self.lemma_named_unique(series@, i as int);
                }
                copy_blocks(&self.series[i].disk)
            },
        }
    }

    /// Copies of the archive blocks of a series, in manifest order; none for an
    /// unknown series.
    pub fn archive_blocks(&self, series: &String) -> (r: Vec<Block>)
        requires
            self.wf(),
        ensures
            (forall|i: int| !named(self.all_series(), series@, i)) ==> r@.len() == 0,
            forall|i: int|
                named(self.all_series(), series@, i) ==> r@.len() == self.all_series()[i].archive@.len()
                    && forall|j: int| 0 <= j < r@.len() ==> same_block(#[trigger] r@[j], self.all_series()[i].archive@[j]),
    {
        match self.find_series(series) {
            None => Vec::new(),
            Some(i) => {
                proof {
                    self.lemma_named_unique(series@, i as int);
                }
                copy_blocks(&self.series[i].archive)
            },
        }
    }

    proof fn lemma_named_unique(&self, name: Seq<char>, i: int)
        requires
            self.wf(),
            named(self.all_series(), name, i),
        ensures
            forall|j: int| named(self.all_series(), name, j) ==> j == i,
    {
        assert forall|j: int| named(self.all_series(), name, j) implies j == i by {
            if j != i {
                if j < i {
                    assert(self.series@[j].name@ != self.series@[i].name@);
                } else {
                    assert(self.series@[i].name@ != self.series@[j].name@);
                }
            }
        }
    }
}

/// Relies on chrono's `From<SystemTime> for DateTime<Utc>` and
/// `DateTime::timestamp_millis`: the current time in milliseconds since the
/// Unix epoch, negative for a clock set before it. Nothing is promised of the value.
#[verifier::external_body]
fn now_millis() -> (r: i64) {
    chrono::DateTime::<chrono::Utc>::from(std::time::SystemTime::now()).timestamp_millis()
}

/// The archival cutoff for a clock reading: nothing is old enough when the
/// clock reads before the epoch.
pub open spec fn cutoff_at(now: i64, archival_age_days: u32) -> u64 {
    if now < 0 {
        0
    } else {
        crate::config::archive_cutoff_spec(now as u64, archival_age_days)
    }
}

impl Engine {
    /// Archives the disk blocks older than `archival_age_days` days before now.
    pub fn force_archival(&mut self, archival_age_days: u32) -> (r: usize)
        requires
            old(self).wf(),
        ensures
            final(self).wf(),
            final(self).buffer_size() == old(self).buffer_size(),
            final(self).archiving() == old(self).archiving(),
            exists|now: i64|
                archived(
                    old(self).all_series(),
                    final(self).all_series(),
                    old(self).archiving(),
                    cutoff_at(now, archival_age_days),
                    r,
                ),
    {
        let now = now_millis();
        let cutoff = if now < 0 {
            0
        } else {
            crate::config::archive_cutoff(now as u64, archival_age_days)
        };
        let r = self.force_archive(cutoff);
        assert(cutoff == cutoff_at(now, archival_age_days));
        r
    }

    /// The last flush before the engine is dropped; running it again changes nothing more.
    pub fn shutdown(&mut self) -> (r: Result<(), StorageError>)
        requires
            old(self).wf(),
        ensures
            r is Ok,
            final(self).wf(),
            final(self).buffer_size() == old(self).buffer_size(),
            final(self).archiving() == old(self).archiving(),
            final(self).all_series().len() == old(self).all_series().len(),
            forall|i: int|
                0 <= i < old(self).all_series().len() ==> after_flush(
                    #[trigger] old(self).all_series()[i],
                    final(self).all_series()[i],
                ),
    {
        self.force_flush()
    }
}

} // verus!
