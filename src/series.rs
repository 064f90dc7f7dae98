use vstd::prelude::*;
use crate::block::{DataPoint, strictly_increasing};

verus! {

/// The value last written at timestamp `k` along `pts`, if any.
pub open spec fn latest(pts: Seq<DataPoint>, k: u64) -> Option<u64>
    decreases pts.len(),
{
    if pts.len() == 0 {
        None
    } else if pts.last().timestamp == k {
        Some(pts.last().value_bits)
    } else {
        latest(pts.drop_last(), k)
    }
}

/// `r` lists, in ascending timestamp order and once per timestamp, the value
/// last written along `pts` at each timestamp that `pts` holds.
pub open spec fn merged(r: Seq<DataPoint>, pts: Seq<DataPoint>) -> bool {
    &&& strictly_increasing(r)
    &&& forall|i: int| 0 <= i < r.len() ==> latest(pts, #[trigger] r[i].timestamp) == Some(r[i].value_bits)
    &&& forall|k: u64| (#[trigger] latest(pts, k)) is Some ==> exists|i: int| 0 <= i < r.len() && r[i].timestamp == k
}

pub proof fn lemma_latest_push(pts: Seq<DataPoint>, p: DataPoint, k: u64)
    ensures
        latest(pts.push(p), k) == (if k == p.timestamp { Some(p.value_bits) } else { latest(pts, k) }),
{
    assert(pts.push(p).drop_last() =~= pts);
}

pub proof fn lemma_latest_concat(a: Seq<DataPoint>, b: Seq<DataPoint>, k: u64)
    ensures
        latest(a + b, k) == (if latest(b, k) is Some { latest(b, k) } else { latest(a, k) }),
    decreases b.len(),
{
    if b.len() == 0 {
        assert(a + b =~= a);
    } else {
        assert((a + b).drop_last() =~= a + b.drop_last());
        lemma_latest_concat(a, b.drop_last(), k);
    }
}

/// A merged listing of nothing is empty.
pub proof fn lemma_merged_empty(r: Seq<DataPoint>)
    requires
        merged(r, Seq::empty()),
    ensures
        r.len() == 0,
{
    if r.len() > 0 {
        assert(latest(Seq::<DataPoint>::empty(), r[0].timestamp) == Some(r[0].value_bits));
    }
}

/// Two merged listings of the same writes are the same listing.
pub proof fn lemma_merged_unique(r1: Seq<DataPoint>, r2: Seq<DataPoint>, pts: Seq<DataPoint>)
    requires
        merged(r1, pts),
        merged(r2, pts),
    ensures
        r1 == r2,
    decreases r1.len() + r2.len(),
{
    if r1.len() > 0 && r2.len() > 0 {
        let a = r1[0].timestamp;
        let b = r2[0].timestamp;
        assert(latest(pts, a) is Some);
        assert(latest(pts, b) is Some);
        let j = choose|j: int| 0 <= j < r2.len() && r2[j].timestamp == a;
        let i = choose|i: int| 0 <= i < r1.len() && r1[i].timestamp == b;
        assert(a == b) by {
            if j > 0 {
                assert(r2[0].timestamp < r2[j].timestamp);
            }
            if i > 0 {
                assert(r1[0].timestamp < r1[i].timestamp);
            }
        }
        lemma_merged_tail(r1, pts);
        lemma_merged_tail(r2, pts);
        lemma_merged_unique(r1.drop_first(), r2.drop_first(), tail_writes(pts, a));
        assert(r1 =~= seq![r1[0]] + r1.drop_first());
        assert(r2 =~= seq![r2[0]] + r2.drop_first());
    } else if r1.len() > 0 {
        assert(latest(pts, r1[0].timestamp) is Some);
    } else if r2.len() > 0 {
        assert(latest(pts, r2[0].timestamp) is Some);
    }
}

/// The writes along `pts` at timestamps above `a`.
pub open spec fn tail_writes(pts: Seq<DataPoint>, a: u64) -> Seq<DataPoint> {
    pts.filter(|p: DataPoint| p.timestamp > a)
}

proof fn lemma_latest_tail(pts: Seq<DataPoint>, a: u64, k: u64)
    ensures
        latest(tail_writes(pts, a), k) == (if k > a { latest(pts, k) } else { None }),
    decreases pts.len(),
{
    reveal_with_fuel(Seq::filter, 1);
    if pts.len() > 0 {
        lemma_latest_tail(pts.drop_last(), a, k);
        let f = |p: DataPoint| p.timestamp > a;
        if f(pts.last()) {
            assert(tail_writes(pts, a) == tail_writes(pts.drop_last(), a).push(pts.last()));
            lemma_latest_push(tail_writes(pts.drop_last(), a), pts.last(), k);
        }
    }
}

proof fn lemma_merged_tail(r: Seq<DataPoint>, pts: Seq<DataPoint>)
    requires
        merged(r, pts),
        r.len() > 0,
    ensures
        merged(r.drop_first(), tail_writes(pts, r[0].timestamp)),
{
    let a = r[0].timestamp;
    let t = r.drop_first();
    let tp = tail_writes(pts, a);
    assert forall|i: int| 0 <= i < t.len() implies latest(tp, #[trigger] t[i].timestamp) == Some(
        t[i].value_bits,
    ) by {
        assert(t[i] == r[i + 1]);
        assert(r[0].timestamp < r[i + 1].timestamp);
        lemma_latest_tail(pts, a, t[i].timestamp);
    }
    assert forall|k: u64| (#[trigger] latest(tp, k)) is Some implies exists|i: int|
        0 <= i < t.len() && t[i].timestamp == k by {
        lemma_latest_tail(pts, a, k);
        assert(latest(pts, k) is Some);
        let j = choose|j: int| 0 <= j < r.len() && r[j].timestamp == k;
        assert(j > 0);
        assert(t[j - 1].timestamp == k);
    }
}

/// Writes `p` into a timestamp-ordered listing: it replaces the point at the
/// same timestamp, or goes in at its place.
pub fn upsert(out: &mut Vec<DataPoint>, p: DataPoint, Ghost(pts): Ghost<Seq<DataPoint>>)
    requires
        merged(old(out)@, pts),
    ensures
        merged(final(out)@, pts.push(p)),
{
    let n = out.len();
    let mut j: usize = 0;
    while j < n && out[j].timestamp < p.timestamp
        invariant
            n == out@.len(),
            j <= n,
            forall|i: int| 0 <= i < j ==> out@[i].timestamp < p.timestamp,
        decreases n - j,
    {
        j = j + 1;
    }
    let ghost o = out@;
    proof {
        assert forall|k: u64| true implies latest(pts.push(p), k) == (if k == p.timestamp {
            Some(p.value_bits)
        } else {
            latest(pts, k)
        }) by {
            lemma_latest_push(pts, p, k);
        }
    }
    if j < n && out[j].timestamp == p.timestamp {
        out.set(j, p);
        proof {
            let r = out@;
            assert forall|a: int, b: int| 0 <= a < b < r.len() implies r[a].timestamp < r[b].timestamp by {
                assert(o[a].timestamp < o[b].timestamp);
            }
            assert forall|i: int| 0 <= i < r.len() implies latest(pts.push(p), #[trigger] r[i].timestamp)
                == Some(r[i].value_bits) by {
                if i != j {
                    assert(o[i].timestamp != o[j as int].timestamp);
                }
            }
            assert forall|k: u64| (#[trigger] latest(pts.push(p), k)) is Some implies exists|i: int|
                0 <= i < r.len() && r[i].timestamp == k by {
                if k == p.timestamp {
                    assert(r[j as int].timestamp == k);
                } else {
                    assert(latest(pts, k) is Some);
                    let i = choose|i: int| 0 <= i < o.len() && o[i].timestamp == k;
                    assert(r[i].timestamp == k);
                }
            }
        }
    } else {
        out.insert(j, p);
        proof {
            let r = out@;
            o.insert_ensures(j as int, p);
            assert forall|i: int| j < i < r.len() implies r[i] == o[i - 1] by {
                assert(o.insert(j as int, p)[(i - 1) + 1] == o[i - 1]);
            }
            assert forall|i: int| j < i < r.len() implies r[i].timestamp > p.timestamp by {
                assert(o[j as int].timestamp <= o[i - 1].timestamp);
                assert(o[j as int].timestamp != p.timestamp);
            }
            assert forall|a: int, b: int| 0 <= a < b < r.len() implies r[a].timestamp < r[b].timestamp by {
                if b < j {
                } else if b == j {
                } else if a < j {
                    assert(r[a].timestamp < p.timestamp);
                } else if a == j {
                } else {
                    assert(o[a - 1].timestamp < o[b - 1].timestamp);
                }
            }
            assert forall|i: int| 0 <= i < r.len() implies latest(pts.push(p), #[trigger] r[i].timestamp)
                == Some(r[i].value_bits) by {
                if i < j {
                    assert(r[i] == o[i]);
                } else if i > j {
                    assert(r[i] == o[i - 1]);
                }
            }
            assert forall|k: u64| (#[trigger] latest(pts.push(p), k)) is Some implies exists|i: int|
                0 <= i < r.len() && r[i].timestamp == k by {
                if k == p.timestamp {
                    assert(r[j as int].timestamp == k);
                } else {
                    assert(latest(pts, k) is Some);
                    let i = choose|i: int| 0 <= i < o.len() && o[i].timestamp == k;
                    if i < j {
                        assert(r[i].timestamp == k);
                    } else {
                        assert(r[i + 1] == o[i]);
                        assert(r[i + 1].timestamp == k);
                    }
                }
            }
        }
    }
}

} // verus!
