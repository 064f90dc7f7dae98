use vstd::prelude::*;
use crate::bitstream::{BitWriter, BitReader, bits_of, packs, lemma_written_bits_read_back};
use crate::error::CompressionError;
use crate::timestamp::{
    TimestampCompressor,
    TimestampDecompressor,
    ts_code,
    parse_ts,
    lemma_ts_round_trip,
    fits_i64,
};
use crate::value::{
    ValueCompressor,
    ValueDecompressor,
    val_code,
    parse_val,
    lemma_val_round_trip,
    window_ok,
};

verus! {

/// One sample: a millisecond timestamp and the IEEE-754 bits of its value.
#[derive(Debug, Clone, Copy, PartialEq, Eq, Structural)]
pub struct DataPoint {
    pub timestamp: u64,
    pub value_bits: u64,
}

impl DataPoint {
    pub fn new(timestamp: u64, value_bits: u64) -> (r: DataPoint)
        ensures
            r.timestamp == timestamp,
            r.value_bits == value_bits,
    {
        DataPoint { timestamp, value_bits }
    }
}

/// A sealed, compressed run of points of one series. The first timestamp is
/// `start_time` and the first value is `first_value`; the streams hold the rest.
#[derive(Debug, Clone)]
pub struct Block {
    pub start_time: u64,
    pub end_time: u64,
    pub point_count: usize,
    pub first_value: u64,
    pub compressed_timestamps: Vec<u8>,
    pub compressed_values: Vec<u8>,
}

pub open spec fn in_range(p: DataPoint, lo: u64, hi: u64) -> bool {
    lo <= p.timestamp <= hi
}

/// The points of `pts` whose timestamps lie in `[lo, hi]`, in order.
pub open spec fn range_filter(pts: Seq<DataPoint>, lo: u64, hi: u64) -> Seq<DataPoint> {
    pts.filter(|p: DataPoint| in_range(p, lo, hi))
}

/// Timestamps never decrease along `pts`.
pub open spec fn non_decreasing(pts: Seq<DataPoint>) -> bool {
    forall|i: int, j: int| 0 <= i <= j < pts.len() ==> pts[i].timestamp <= pts[j].timestamp
}

/// Timestamps strictly increase along `pts`.
pub open spec fn strictly_increasing(pts: Seq<DataPoint>) -> bool {
    forall|i: int, j: int| 0 <= i < j < pts.len() ==> pts[i].timestamp < pts[j].timestamp
}

/// The delta before point `i` is coded, absent for the second point.
pub open spec fn delta_before(pts: Seq<DataPoint>, i: int) -> Option<int> {
    if i <= 1 {
        None
    } else {
        Some(pts[i - 1].timestamp - pts[i - 2].timestamp)
    }
}

pub open spec fn ts_code_at(pts: Seq<DataPoint>, i: int) -> Option<Seq<bool>> {
    ts_code(pts[i - 1].timestamp, delta_before(pts, i), pts[i].timestamp)
}

/// Every timestamp after the first has a code (its delta fits 64 bits and its
/// delta-of-delta fits 32 bits).
pub open spec fn encodable(pts: Seq<DataPoint>) -> bool {
    forall|i: int| 1 <= i < pts.len() ==> (#[trigger] ts_code_at(pts, i)) is Some
}

/// The timestamp stream of the first `k` points.
pub open spec fn ts_prefix(pts: Seq<DataPoint>, k: int) -> Seq<bool>
    decreases k,
{
    if k <= 1 {
        Seq::empty()
    } else {
        ts_prefix(pts, k - 1) + ts_code_at(pts, k - 1).unwrap()
    }
}

/// The value encoder's state (last value, window) after the first `k` points.
pub open spec fn val_state(pts: Seq<DataPoint>, k: int) -> (u64, nat, nat)
    decreases k,
{
    if k <= 1 {
        (pts[0].value_bits, 0, 0)
    } else {
        let st = val_state(pts, k - 1);
        let c = val_code(st.0, st.1, st.2, pts[k - 1].value_bits);
        (pts[k - 1].value_bits, c.1, c.2)
    }
}

pub open spec fn val_code_at(pts: Seq<DataPoint>, i: int) -> Seq<bool> {
    let st = val_state(pts, i);
    val_code(st.0, st.1, st.2, pts[i].value_bits).0
}

/// The value stream of the first `k` points.
pub open spec fn val_prefix(pts: Seq<DataPoint>, k: int) -> Seq<bool>
    decreases k,
{
    if k <= 1 {
        Seq::empty()
    } else {
        val_prefix(pts, k - 1) + val_code_at(pts, k - 1)
    }
}

/// `b` is the block that the codec makes of `pts`.
pub open spec fn encodes(b: Block, pts: Seq<DataPoint>) -> bool {
    &&& pts.len() > 0
    &&& non_decreasing(pts)
    &&& b.start_time == pts[0].timestamp
    &&& b.end_time == pts.last().timestamp
    &&& b.point_count == pts.len()
    &&& b.first_value == pts[0].value_bits
    &&& packs(b.compressed_timestamps@, ts_prefix(pts, pts.len() as int))
    &&& packs(b.compressed_values@, val_prefix(pts, pts.len() as int))
}

pub open spec fn prepend_all<T>(a: Seq<T>, r: Result<Seq<T>, CompressionError>) -> Result<
    Seq<T>,
    CompressionError,
> {
    match r {
        Ok(x) => Ok(a + x),
        Err(e) => Err(e),
    }
}

/// The `n` timestamps read from bit `p` on.
pub open spec fn decode_ts(s: Seq<bool>, p: int, prev: u64, delta: Option<int>, n: nat) -> Result<
    Seq<u64>,
    CompressionError,
>
    decreases n,
{
    if n == 0 {
        Ok(Seq::empty())
    } else {
        match parse_ts(s, p, prev, delta) {
            Err(e) => Err(e),
            Ok((t, d, c)) => prepend_all(seq![t], decode_ts(s, p + c, t, Some(d), (n - 1) as nat)),
        }
    }
}

/// The `n` values read from bit `p` on.
pub open spec fn decode_vals(s: Seq<bool>, p: int, prev: u64, lead: nat, trail: nat, n: nat) -> Result<
    Seq<u64>,
    CompressionError,
>
    decreases n,
{
    if n == 0 {
        Ok(Seq::empty())
    } else {
        match parse_val(s, p, prev, lead, trail) {
            Err(e) => Err(e),
            Ok((v, l, t, c)) => prepend_all(
                seq![v],
                decode_vals(s, p + c, v, l, t, (n - 1) as nat),
            ),
        }
    }
}

/// Buffers too long for their bit count to fit a machine word.
pub open spec fn oversized(b: Block) -> bool {
    b.compressed_timestamps@.len() * 8 > usize::MAX || b.compressed_values@.len() * 8 > usize::MAX
}

/// The points that the streams of a block spell, before any check against its header.
pub open spec fn block_points_raw(b: Block, ts: Seq<u64>, vs: Seq<u64>) -> Seq<DataPoint> {
    Seq::new(
        b.point_count as nat,
        |i: int|
            if i == 0 {
                DataPoint { timestamp: b.start_time, value_bits: b.first_value }
            } else {
                DataPoint { timestamp: ts[i - 1], value_bits: vs[i - 1] }
            },
    )
}

/// The points a block holds, or why it cannot be read. A block whose
/// timestamps go back in time, or do not end at `end_time`, is malformed.
pub open spec fn decode_block_spec(b: Block) -> Result<Seq<DataPoint>, CompressionError> {
    if b.point_count == 0 {
        Ok(Seq::empty())
    } else if oversized(b) {
        Err(CompressionError::InvalidFormat)
    } else {
        let n = (b.point_count - 1) as nat;
        match decode_ts(bits_of(b.compressed_timestamps@), 0, b.start_time, None, n) {
            Err(e) => Err(e),
            Ok(ts) => match decode_vals(bits_of(b.compressed_values@), 0, b.first_value, 0, 0, n) {
                Err(e) => Err(e),
                Ok(vs) => {
                    let pts = block_points_raw(b, ts, vs);
                    if non_decreasing(pts) && pts.last().timestamp == b.end_time {
                        Ok(pts)
                    } else {
                        Err(CompressionError::InvalidFormat)
                    }
                },
            },
        }
    }
}

/// Every point of a readable block lies within its header's time span.
pub proof fn lemma_decoded_within_span(b: Block)
    requires
        decode_block_spec(b) is Ok,
    ensures
        forall|i: int|
            0 <= i < decode_block_spec(b).unwrap().len() ==> b.start_time <= (
            #[trigger] decode_block_spec(b).unwrap()[i]).timestamp <= b.end_time,
{
    let pts = decode_block_spec(b).unwrap();
    if pts.len() > 0 {
        assert forall|i: int| 0 <= i < pts.len() implies b.start_time <= (#[trigger] pts[i]).timestamp
            <= b.end_time by {
            assert(pts[0].timestamp <= pts[i].timestamp);
            assert(pts[i].timestamp <= pts[pts.len() - 1].timestamp);
        }
    }
}

pub(crate) proof fn lemma_ts_prefix_len(pts: Seq<DataPoint>, k: int)
    requires
        1 <= k <= pts.len(),
        encodable(pts),
    ensures
        ts_prefix(pts, k).len() <= 64 * (k - 1),
    decreases k,
{
    if k > 1 {
        lemma_ts_prefix_len(pts, k - 1);
        assert(ts_code_at(pts, k - 1) is Some);
    }
}

pub(crate) proof fn lemma_val_state_ok(pts: Seq<DataPoint>, k: int)
    requires
        1 <= k <= pts.len(),
    ensures
        window_ok(val_state(pts, k).1, val_state(pts, k).2),
        val_state(pts, k).0 == pts[k - 1].value_bits,
        val_prefix(pts, k).len() <= 80 * (k - 1),
    decreases k,
{
    if k > 1 {
        lemma_val_state_ok(pts, k - 1);
        let st = val_state(pts, k - 1);
        let c = val_code(st.0, st.1, st.2, pts[k - 1].value_bits).0;
        assert(c.subrange(0, c.len() as int) =~= c);
        lemma_val_round_trip(
            c,
            0,
            st.0,
            st.1,
            st.2,
            pts[k - 1].value_bits,
        );
    }
}

/// Builds a block one point at a time; timestamps may repeat but never go back.
pub struct BlockBuilder {
    start_time: u64,
    end_time: u64,
    point_count: usize,
    first_value: u64,
    ts_comp: TimestampCompressor,
    val_comp: ValueCompressor,
    ts_w: BitWriter,
    val_w: BitWriter,
    points: Ghost<Seq<DataPoint>>,
}

impl View for BlockBuilder {
    type V = Seq<DataPoint>;

    closed spec fn view(&self) -> Seq<DataPoint> {
        self.points@
    }
}

impl BlockBuilder {
    pub closed spec fn wf(&self) -> bool {
        let pts = self.points@;
        let n = pts.len() as int;
        &&& n >= 1
        &&& self.point_count == n
        &&& self.start_time == pts[0].timestamp
        &&& self.end_time == pts[n - 1].timestamp
        &&& self.first_value == pts[0].value_bits
        &&& non_decreasing(pts)
        &&& encodable(pts)
        &&& self.ts_w.wf()
        &&& self.val_w.wf()
        &&& self.val_comp.wf()
        &&& self.ts_w@ == ts_prefix(pts, n)
        &&& self.ts_w@.len() <= 64 * (n - 1)
        &&& self.val_w@ == val_prefix(pts, n)
        &&& self.val_w@.len() <= 80 * (n - 1)
        &&& self.ts_comp.prev() == pts[n - 1].timestamp
        &&& self.ts_comp.delta() == delta_before(pts, n)
        &&& (self.val_comp.prev(), self.val_comp.lead(), self.val_comp.trail()) == val_state(pts, n)
    }

    /// A builder that holds `first`.
    pub fn new(first: DataPoint) -> (r: BlockBuilder)
        ensures
            r.wf(),
            r@ == seq![first],
    {
        let ghost pts = seq![first];
        BlockBuilder {
            start_time: first.timestamp,
            end_time: first.timestamp,
            point_count: 1,
            first_value: first.value_bits,
            ts_comp: TimestampCompressor::new(first.timestamp),
            val_comp: ValueCompressor::new(first.value_bits),
            ts_w: BitWriter::new(),
            val_w: BitWriter::new(),
            points: Ghost(pts),
        }
    }

    /// The last timestamp taken.
    pub fn end_time(&self) -> (r: u64)
        requires
            self.wf(),
        ensures
            r == self@.last().timestamp,
    {
        self.end_time
    }

    /// Appends a point. Fails with `InvalidInput`, taking nothing, when the
    /// point goes back in time or its timestamp cannot be encoded.
    pub fn add_point(&mut self, p: DataPoint) -> (r: Result<(), CompressionError>)
        requires
            old(self).wf(),
            old(self)@.len() < usize::MAX / 80,
        ensures
            final(self).wf(),
            r is Ok <==> p.timestamp >= old(self)@.last().timestamp && encodable(old(self)@.push(p)),
            r is Ok ==> final(self)@ == old(self)@.push(p),
            r matches Err(e) ==> e == CompressionError::InvalidInput && final(self)@ == old(self)@,
    {
        let ghost pts = self.points@;
        let ghost n = pts.len() as int;
        let ghost np = pts.push(p);
        proof {
            assert forall|i: int| 1 <= i < n implies #[trigger] ts_code_at(np, i) == ts_code_at(pts, i) by {
                assert(np[i] == pts[i] && np[i - 1] == pts[i - 1]);
                if i >= 2 {
                    assert(np[i - 2] == pts[i - 2]);
                }
            }
            assert(ts_code_at(np, n) == ts_code(pts[n - 1].timestamp, delta_before(pts, n), p.timestamp));
            assert(encodable(np) <==> ts_code_at(np, n) is Some) by {
                if ts_code_at(np, n) is Some {
                    assert forall|i: int| 1 <= i < np.len() implies (#[trigger] ts_code_at(np, i)) is Some by {
                        if i < n {
                            assert(ts_code_at(pts, i) is Some);
                        }
                    }
                }
            }
        }
        if p.timestamp < self.end_time {
            return Err(CompressionError::InvalidInput);
        }
        match self.ts_comp.compress(p.timestamp, &mut self.ts_w) {
            Err(e) => {
                return Err(e);
            },
            Ok(()) => {},
        }
        self.val_comp.compress(p.value_bits, &mut self.val_w);
        self.end_time = p.timestamp;
        self.point_count = self.point_count + 1;
        self.points = Ghost(np);
        proof {
            lemma_ts_prefix_agrees(pts, np, n);
            lemma_val_prefix_agrees(pts, np, n);
            assert(self.ts_w@ =~= ts_prefix(np, n + 1));
            lemma_val_state_ok(np, n + 1);
            assert(self.val_w@ =~= val_prefix(np, n + 1));
            assert(delta_before(np, n + 1) == Some(p.timestamp - pts[n - 1].timestamp));
            assert forall|a: int, b: int| 0 <= a <= b < np.len() implies np[a].timestamp <= np[b].timestamp by {
                if b == n {
                    if a < n {
                        assert(np[a] == pts[a]);
                        assert(pts[a].timestamp <= pts[n - 1].timestamp);
                    }
                } else {
                    assert(np[a] == pts[a] && np[b] == pts[b]);
                }
            }
        }
        Ok(())
    }

    /// The block of every point taken.
    pub fn seal(self) -> (r: Block)
        requires
            self.wf(),
        ensures
            encodes(r, self@),
            encodable(self@),
    {
        Block {
            start_time: self.start_time,
            end_time: self.end_time,
            point_count: self.point_count,
            first_value: self.first_value,
            compressed_timestamps: self.ts_w.finish(),
            compressed_values: self.val_w.finish(),
        }
    }
}

/// The streams of the first `k` points depend on those points alone.
proof fn lemma_ts_prefix_agrees(a: Seq<DataPoint>, b: Seq<DataPoint>, k: int)
    requires
        1 <= k <= a.len(),
        k <= b.len(),
        forall|i: int| 0 <= i < k ==> a[i] == b[i],
    ensures
        ts_prefix(a, k) == ts_prefix(b, k),
    decreases k,
{
    if k > 1 {
        lemma_ts_prefix_agrees(a, b, k - 1);
        assert(ts_code_at(a, k - 1) == ts_code_at(b, k - 1)) by {
            if k - 1 >= 2 {
                assert(a[k - 3] == b[k - 3]);
            }
            assert(a[k - 2] == b[k - 2]);
            assert(a[k - 1] == b[k - 1]);
        }
    }
}

proof fn lemma_val_prefix_agrees(a: Seq<DataPoint>, b: Seq<DataPoint>, k: int)
    requires
        1 <= k <= a.len(),
        k <= b.len(),
        forall|i: int| 0 <= i < k ==> a[i] == b[i],
    ensures
        val_prefix(a, k) == val_prefix(b, k),
        val_state(a, k) == val_state(b, k),
    decreases k,
{
    if k > 1 {
        lemma_val_prefix_agrees(a, b, k - 1);
        assert(a[k - 1] == b[k - 1]);
    } else {
        assert(a[0] == b[0]);
    }
}

/// `blocks` hold `pts` in order, each block the encoding of the next run of
/// points (its length is the block's point count), each run `encodable` and
/// short enough to measure in bits.
pub open spec fn runs(blocks: Seq<Block>, pts: Seq<DataPoint>) -> bool
    decreases blocks.len(),
{
    if blocks.len() == 0 {
        pts.len() == 0
    } else {
        let n = blocks.last().point_count as int;
        let k = pts.len() - n;
        &&& 1 <= n <= pts.len()
        &&& n < usize::MAX / 80
        &&& encodes(blocks.last(), pts.skip(k))
        &&& encodable(pts.skip(k))
        &&& runs(blocks.drop_last(), pts.take(k))
    }
}

/// Compresses points into as few blocks as the codec needs: a new block starts
/// wherever the next timestamp cannot be encoded in the current one. Never fails.
pub fn encode_runs(points: &Vec<DataPoint>) -> (r: Vec<Block>)
    requires
        non_decreasing(points@),
    ensures
        runs(r@, points@),
{
    let n = points.len();
    let mut out: Vec<Block> = Vec::new();
    let ghost pts = points@;
    if n == 0 {
        return out;
    }
    let mut builder = BlockBuilder::new(points[0]);
    let mut start: usize = 0;
    let mut i: usize = 1;
    proof {
        assert(pts.subrange(0, 1) =~= seq![pts[0]]);
        assert(pts.take(0) =~= Seq::<DataPoint>::empty());
    }
    while i < n
        invariant
            n == pts.len(),
            pts == points@,
            non_decreasing(pts),
            start < i <= n,
            i - start < usize::MAX / 80,
            builder.wf(),
            builder@ == pts.subrange(start as int, i as int),
            runs(out@, pts.take(start as int)),
        decreases n - i,
    {
        let p = points[i];
        let mut added = false;
        if i - start + 1 < usize::MAX / 80 && p.timestamp >= builder.end_time() {
            match builder.add_point(p) {
                Ok(()) => {
                    added = true;
                    proof {
                        assert(pts.subrange(start as int, i as int).push(p) =~= pts.subrange(start as int, i + 1));
                    }
                },
                Err(_) => {},
            }
        }
        if !added {
            let ghost seg = builder@;
            let b = builder.seal();
            let ghost before = out@;
            out.push(b);
            proof {
                let t = pts.take(i as int);
                assert(t.skip(start as int) =~= seg);
                assert(t.take(start as int) =~= pts.take(start as int));
                assert(out@.drop_last() =~= before);
                assert(runs(out@, t));
            }
            builder = BlockBuilder::new(p);
            start = i;
            proof {
                assert(pts.subrange(start as int, i + 1) =~= seq![p]);
            }
        }
        i = i + 1;
    }
    let ghost seg = builder@;
    let b = builder.seal();
    let ghost before = out@;
    out.push(b);
    proof {
        assert(pts.skip(start as int) =~= seg);
        assert(out@.drop_last() =~= before);
    }
    out
}

/// Compresses a run of points into a block. Fails with `InvalidInput` when the
/// run is empty, goes back in time, or is not `encodable`.
pub fn encode_block(points: &Vec<DataPoint>) -> (r: Result<Block, CompressionError>)
    requires
        points@.len() * 80 < usize::MAX,
    ensures
        r is Ok <==> points@.len() > 0 && non_decreasing(points@) && encodable(points@),
        r matches Ok(b) ==> encodes(b, points@),
        r matches Err(e) ==> e == CompressionError::InvalidInput,
{
    let n = points.len();
    if n == 0 {
        return Err(CompressionError::InvalidInput);
    }
    let ghost pts = points@;
    let mut builder = BlockBuilder::new(points[0]);
    proof {
        assert(builder@ =~= pts.take(1));
    }
    let mut i: usize = 1;
    while i < n
        invariant
            n == pts.len(),
            pts == points@,
            n * 80 < usize::MAX,
            1 <= i <= n,
            builder.wf(),
            builder@ == pts.take(i as int),
        decreases n - i,
    {
        match builder.add_point(points[i]) {
            Err(e) => {
                proof {
                    assert(pts.take(i as int).push(pts[i as int]) =~= pts.take(i + 1));
                    if non_decreasing(pts) && encodable(pts) {
                        assert(pts[i - 1].timestamp <= pts[i as int].timestamp);
                        assert forall|j: int| 1 <= j < i + 1 implies (#[trigger] ts_code_at(pts.take(i + 1), j)) is Some by {
                            assert(ts_code_at(pts, j) is Some);
                            assert(pts.take(i + 1)[j] == pts[j]);
                            assert(pts.take(i + 1)[j - 1] == pts[j - 1]);
                            if j >= 2 {
                                assert(pts.take(i + 1)[j - 2] == pts[j - 2]);
                            }
                        }
                    }
                }
                return Err(e);
            },
            Ok(()) => {
                proof {
                    assert(pts.take(i as int).push(pts[i as int]) =~= pts.take(i + 1));
                }
            },
        }
        i = i + 1;
    }
    proof {
        assert(pts.take(n as int) =~= pts);
    }
    Ok(builder.seal())
}

proof fn lemma_decode_ts_len(s: Seq<bool>, p: int, prev: u64, delta: Option<int>, n: nat)
    ensures
        decode_ts(s, p, prev, delta, n) matches Ok(x) ==> x.len() == n,
    decreases n,
{
    if n > 0 {
        match parse_ts(s, p, prev, delta) {
            Err(e) => {},
            Ok((t, d, c)) => lemma_decode_ts_len(s, p + c, t, Some(d), (n - 1) as nat),
        }
    }
}

proof fn lemma_decode_vals_len(s: Seq<bool>, p: int, prev: u64, lead: nat, trail: nat, n: nat)
    ensures
        decode_vals(s, p, prev, lead, trail, n) matches Ok(x) ==> x.len() == n,
    decreases n,
{
    if n > 0 {
        match parse_val(s, p, prev, lead, trail) {
            Err(e) => {},
            Ok((v, l, t, c)) => lemma_decode_vals_len(s, p + c, v, l, t, (n - 1) as nat),
        }
    }
}

proof fn lemma_prepend_push<T>(a: Seq<T>, t: T, r: Result<Seq<T>, CompressionError>)
    ensures
        prepend_all(a, prepend_all(seq![t], r)) == prepend_all(a.push(t), r),
{
    match r {
        Ok(x) => {
            assert(a + (seq![t] + x) =~= a.push(t) + x);
        },
        Err(e) => {},
    }
}

fn decode_timestamps(bytes: &Vec<u8>, start: u64, n: usize) -> (r: Result<Vec<u64>, CompressionError>)
    requires
        bytes@.len() * 8 <= usize::MAX,
    ensures
        match decode_ts(bits_of(bytes@), 0, start, None, n as nat) {
            Ok(ts) => r matches Ok(v) && v@ == ts,
            Err(e) => r == Err::<Vec<u64>, CompressionError>(e),
        },
{
    let ghost s = bits_of(bytes@);
    let mut reader = BitReader::new(bytes.clone());
    let mut dec = TimestampDecompressor::new(start);
    let mut out: Vec<u64> = Vec::new();
    let mut i: usize = 0;
    assert(prepend_all(out@, decode_ts(s, 0, start, None, n as nat)) =~= decode_ts(
        s,
        0,
        start,
        None,
        n as nat,
    )) by {
        match decode_ts(s, 0, start, None, n as nat) {
            Ok(x) => {
                assert(out@ + x =~= x);
            },
            Err(e) => {},
        }
    }
    while i < n
        invariant
            reader.wf(),
            reader.stream() == s,
            s == bits_of(bytes@),
            i <= n,
            decode_ts(s, 0, start, None, n as nat) == prepend_all(
                out@,
                decode_ts(s, reader.position() as int, dec.prev(), dec.delta(), (n - i) as nat),
            ),
        decreases n - i,
    {
        let ghost p = reader.position() as int;
        let ghost st_prev = dec.prev();
        let ghost st_delta = dec.delta();
        match dec.decompress(&mut reader) {
            Err(e) => {
                assert(decode_ts(s, p, st_prev, st_delta, (n - i) as nat) == Err::<Seq<u64>, CompressionError>(e));
                return Err(e);
            },
            Ok(t) => {
                proof {
                    lemma_prepend_push(
                        out@,
                        t,
                        decode_ts(s, reader.position() as int, dec.prev(), dec.delta(), (n - i - 1) as nat),
                    );
                }
                out.push(t);
            },
        }
        i = i + 1;
    }
    proof {
        assert(out@ + Seq::<u64>::empty() =~= out@);
    }
    Ok(out)
}

fn decode_values(bytes: &Vec<u8>, first: u64, n: usize) -> (r: Result<Vec<u64>, CompressionError>)
    requires
        bytes@.len() * 8 <= usize::MAX,
    ensures
        match decode_vals(bits_of(bytes@), 0, first, 0, 0, n as nat) {
            Ok(vs) => r matches Ok(v) && v@ == vs,
            Err(e) => r == Err::<Vec<u64>, CompressionError>(e),
        },
{
    let ghost s = bits_of(bytes@);
    let mut reader = BitReader::new(bytes.clone());
    let mut dec = ValueDecompressor::new(first);
    let mut out: Vec<u64> = Vec::new();
    let mut i: usize = 0;
    assert(prepend_all(out@, decode_vals(s, 0, first, 0, 0, n as nat)) =~= decode_vals(
        s,
        0,
        first,
        0,
        0,
        n as nat,
    )) by {
        match decode_vals(s, 0, first, 0, 0, n as nat) {
            Ok(x) => {
                assert(out@ + x =~= x);
            },
            Err(e) => {},
        }
    }
    while i < n
        invariant
            reader.wf(),
            dec.wf(),
            reader.stream() == s,
            s == bits_of(bytes@),
            i <= n,
            decode_vals(s, 0, first, 0, 0, n as nat) == prepend_all(
                out@,
                decode_vals(
                    s,
                    reader.position() as int,
                    dec.prev(),
                    dec.lead(),
                    dec.trail(),
                    (n - i) as nat,
                ),
            ),
        decreases n - i,
    {
        let ghost p = reader.position() as int;
        let ghost st = (dec.prev(), dec.lead(), dec.trail());
        match dec.decompress(&mut reader) {
            Err(e) => {
                assert(decode_vals(s, p, st.0, st.1, st.2, (n - i) as nat) == Err::<Seq<u64>, CompressionError>(e));
                return Err(e);
            },
            Ok(v) => {
                proof {
                    lemma_prepend_push(
                        out@,
                        v,
                        decode_vals(
                            s,
                            reader.position() as int,
                            dec.prev(),
                            dec.lead(),
                            dec.trail(),
                            (n - i - 1) as nat,
                        ),
                    );
                }
                out.push(v);
            },
        }
        i = i + 1;
    }
    proof {
        assert(out@ + Seq::<u64>::empty() =~= out@);
    }
    Ok(out)
}

/// Decompresses every point of a block, in order.
pub fn decode_block(b: &Block) -> (r: Result<Vec<DataPoint>, CompressionError>)
    ensures
        match decode_block_spec(*b) {
            Ok(pts) => r matches Ok(v) && v@ == pts,
            Err(e) => r == Err::<Vec<DataPoint>, CompressionError>(e),
        },
{
    if b.point_count == 0 {
        let v: Vec<DataPoint> = Vec::new();
        assert(v@ =~= Seq::<DataPoint>::empty());
        return Ok(v);
    }
    if b.compressed_timestamps.len() > usize::MAX / 8 || b.compressed_values.len() > usize::MAX / 8 {
        return Err(CompressionError::InvalidFormat);
    }
    let n = b.point_count - 1;
    let ts = match decode_timestamps(&b.compressed_timestamps, b.start_time, n) {
        Err(e) => {
            return Err(e);
        },
        Ok(ts) => ts,
    };
    let vs = match decode_values(&b.compressed_values, b.first_value, n) {
        Err(e) => {
            return Err(e);
        },
        Ok(vs) => vs,
    };
    proof {
        lemma_decode_ts_len(bits_of(b.compressed_timestamps@), 0, b.start_time, None, n as nat);
        lemma_decode_vals_len(bits_of(b.compressed_values@), 0, b.first_value, 0, 0, n as nat);
    }
    let mut out: Vec<DataPoint> = Vec::new();
    out.push(DataPoint { timestamp: b.start_time, value_bits: b.first_value });
    let mut i: usize = 0;
    while i < n
        invariant
            n == b.point_count - 1,
            ts@.len() == n,
            vs@.len() == n,
            i <= n,
            out@.len() == i + 1,
            out@[0] == (DataPoint { timestamp: b.start_time, value_bits: b.first_value }),
            forall|j: int|
                1 <= j <= i ==> #[trigger] out@[j] == (DataPoint {
                    timestamp: ts@[j - 1],
                    value_bits: vs@[j - 1],
                }),
        decreases n - i,
    {
        out.push(DataPoint { timestamp: ts[i], value_bits: vs[i] });
        i = i + 1;
    }
    let ghost raw_pts = block_points_raw(*b, ts@, vs@);
    let ghost expected: Result<Seq<DataPoint>, CompressionError> = if non_decreasing(raw_pts)
        && raw_pts.last().timestamp == b.end_time {
        Ok(raw_pts)
    } else {
        Err(CompressionError::InvalidFormat)
    };
    proof {
        assert(out@ =~= raw_pts);
        assert(decode_block_spec(*b) == expected);
    }
    let mut k: usize = 1;
    while k <= n
        invariant
            1 <= k <= n + 1,
            n < usize::MAX,
            n + 1 == out@.len(),
            out@ == raw_pts,
            decode_block_spec(*b) == expected,
            expected == (if non_decreasing(raw_pts) && raw_pts.last().timestamp == b.end_time {
                Ok::<Seq<DataPoint>, CompressionError>(raw_pts)
            } else {
                Err(CompressionError::InvalidFormat)
            }),
            forall|a: int, c: int| 0 <= a <= c < k ==> out@[a].timestamp <= out@[c].timestamp,
        decreases n + 1 - k,
    {
        if out[k - 1].timestamp > out[k].timestamp {
            return Err(CompressionError::InvalidFormat);
        }
        k = k + 1;
    }
    if out[n].timestamp != b.end_time {
        return Err(CompressionError::InvalidFormat);
    }
    Ok(out)
}

/// The points of a block whose timestamps lie in `[lo, hi]`, in block order.
pub fn block_query_range(b: &Block, lo: u64, hi: u64) -> (r: Result<Vec<DataPoint>, CompressionError>)
    ensures
        match decode_block_spec(*b) {
            Ok(pts) => r matches Ok(v) && v@ == range_filter(pts, lo, hi),
            Err(e) => r == Err::<Vec<DataPoint>, CompressionError>(e),
        },
{
    let all = match decode_block(b) {
        Err(e) => {
            return Err(e);
        },
        Ok(all) => all,
    };
    let mut out: Vec<DataPoint> = Vec::new();
    let mut i: usize = 0;
    while i < all.len()
        invariant
            i <= all@.len(),
            out@ == range_filter(all@.take(i as int), lo, hi),
        decreases all@.len() - i,
    {
        let p = all[i];
        if lo <= p.timestamp && p.timestamp <= hi {
            out.push(p);
        }
        proof {
            assert(all@.take(i + 1).drop_last() =~= all@.take(i as int));
            assert(all@.take(i + 1).last() == p);
            reveal_with_fuel(Seq::filter, 1);
        }
        i = i + 1;
    }
    proof {
        assert(all@.take(all@.len() as int) =~= all@);
    }
    Ok(out)
}

/// The codec stream of the first `k` points is a prefix of that of all of them.
proof fn lemma_prefixes_nest(pts: Seq<DataPoint>, j: int, k: int)
    requires
        1 <= j <= k <= pts.len(),
    ensures
        ts_prefix(pts, j) == ts_prefix(pts, k).take(ts_prefix(pts, j).len() as int),
        val_prefix(pts, j) == val_prefix(pts, k).take(val_prefix(pts, j).len() as int),
        ts_prefix(pts, j).len() <= ts_prefix(pts, k).len(),
        val_prefix(pts, j).len() <= val_prefix(pts, k).len(),
    decreases k - j,
{
    if j < k {
        lemma_prefixes_nest(pts, j, k - 1);
        assert(ts_prefix(pts, k - 1) =~= ts_prefix(pts, k).take(ts_prefix(pts, k - 1).len() as int));
        assert(val_prefix(pts, k - 1) =~= val_prefix(pts, k).take(
            val_prefix(pts, k - 1).len() as int,
        ));
    } else {
        assert(ts_prefix(pts, j) =~= ts_prefix(pts, k).take(ts_prefix(pts, j).len() as int));
        assert(val_prefix(pts, j) =~= val_prefix(pts, k).take(val_prefix(pts, j).len() as int));
    }
}

proof fn lemma_decode_ts_from(pts: Seq<DataPoint>, s: Seq<bool>, k: int)
    requires
        1 <= k <= pts.len(),
        encodable(pts),
        s.take(ts_prefix(pts, pts.len() as int).len() as int) == ts_prefix(pts, pts.len() as int),
        ts_prefix(pts, pts.len() as int).len() <= s.len(),
    ensures
        decode_ts(s, ts_prefix(pts, k).len() as int, pts[k - 1].timestamp, delta_before(pts, k), (pts.len() - k) as nat)
            == Ok::<Seq<u64>, CompressionError>(Seq::new((pts.len() - k) as nat, |i: int| pts[k + i].timestamp)),
    decreases pts.len() - k,
{
    let n = pts.len() as int;
    if k < n {
        lemma_decode_ts_from(pts, s, k + 1);
        lemma_prefixes_nest(pts, k + 1, n);
        let c = ts_code_at(pts, k).unwrap();
        assert(ts_code_at(pts, k) is Some);
        let p = ts_prefix(pts, k).len() as int;
        assert(ts_prefix(pts, k + 1) == ts_prefix(pts, k) + c);
        assert(s.subrange(p, p + c.len()) =~= ts_prefix(pts, k + 1).subrange(p, p + c.len()));
        assert(ts_prefix(pts, k + 1).subrange(p, p + c.len()) =~= c);
        if k >= 2 {
            assert(fits_i64(pts[k - 1].timestamp - pts[k - 2].timestamp)) by {
                assert(ts_code_at(pts, k - 1) is Some);
            }
        }
        lemma_ts_round_trip(s, p, pts[k - 1].timestamp, delta_before(pts, k), pts[k].timestamp);
        assert(delta_before(pts, k + 1) == Some(pts[k].timestamp - pts[k - 1].timestamp));
        assert(seq![pts[k].timestamp] + Seq::new((n - k - 1) as nat, |i: int| pts[k + 1 + i].timestamp)
            =~= Seq::new((n - k) as nat, |i: int| pts[k + i].timestamp));
    } else {
        assert(Seq::new(0, |i: int| pts[k + i].timestamp) =~= Seq::<u64>::empty());
    }
}

proof fn lemma_decode_vals_from(pts: Seq<DataPoint>, s: Seq<bool>, k: int)
    requires
        1 <= k <= pts.len(),
        s.take(val_prefix(pts, pts.len() as int).len() as int) == val_prefix(pts, pts.len() as int),
        val_prefix(pts, pts.len() as int).len() <= s.len(),
    ensures
        decode_vals(
            s,
            val_prefix(pts, k).len() as int,
            val_state(pts, k).0,
            val_state(pts, k).1,
            val_state(pts, k).2,
            (pts.len() - k) as nat,
        ) == Ok::<Seq<u64>, CompressionError>(Seq::new((pts.len() - k) as nat, |i: int| pts[k + i].value_bits)),
    decreases pts.len() - k,
{
    let n = pts.len() as int;
    if k < n {
        lemma_decode_vals_from(pts, s, k + 1);
        lemma_prefixes_nest(pts, k + 1, n);
        lemma_val_state_ok(pts, k);
        let st = val_state(pts, k);
        let c = val_code_at(pts, k);
        let p = val_prefix(pts, k).len() as int;
        assert(val_prefix(pts, k + 1) == val_prefix(pts, k) + c);
        assert(s.subrange(p, p + c.len()) =~= val_prefix(pts, k + 1).subrange(p, p + c.len()));
        assert(val_prefix(pts, k + 1).subrange(p, p + c.len()) =~= c);
        lemma_val_round_trip(s, p, st.0, st.1, st.2, pts[k].value_bits);
        assert(seq![pts[k].value_bits] + Seq::new((n - k - 1) as nat, |i: int| pts[k + 1 + i].value_bits)
            =~= Seq::new((n - k) as nat, |i: int| pts[k + i].value_bits));
    } else {
        assert(Seq::new(0, |i: int| pts[k + i].value_bits) =~= Seq::<u64>::empty());
    }
}

/// Compressing a run of points and decompressing the block gives the run back,
/// timestamps and value bits alike.
pub proof fn lemma_block_round_trip(b: Block, pts: Seq<DataPoint>)
    requires
        encodes(b, pts),
        encodable(pts),
        !oversized(b),
    ensures
        decode_block_spec(b) == Ok::<Seq<DataPoint>, CompressionError>(pts),
{
    let n = pts.len() as int;
    let ts_s = bits_of(b.compressed_timestamps@);
    let val_s = bits_of(b.compressed_values@);
    lemma_written_bits_read_back(b.compressed_timestamps@, ts_prefix(pts, n));
    lemma_written_bits_read_back(b.compressed_values@, val_prefix(pts, n));
    assert(ts_s.take(ts_prefix(pts, n).len() as int) =~= ts_prefix(pts, n));
    assert(val_s.take(val_prefix(pts, n).len() as int) =~= val_prefix(pts, n));
    lemma_decode_ts_from(pts, ts_s, 1);
    lemma_decode_vals_from(pts, val_s, 1);
    let ts = Seq::new((n - 1) as nat, |i: int| pts[1 + i].timestamp);
    let vs = Seq::new((n - 1) as nat, |i: int| pts[1 + i].value_bits);
    assert(block_points_raw(b, ts, vs) =~= pts);
}

} // verus!
