//! Snapping an irregular series onto a regular time grid: points fall into
//! fixed-width buckets `[k*period, (k+1)*period)` (aligned to the epoch, so
//! negative stamps bucket downwards), and each bucket collapses to one value
//! emitted at the bucket start. Only buckets that hold points are formed.

use vstd::prelude::*;

use crate::point::{point_cloned, points_cloned, TsPoint};
use crate::series::{ts_sorted, TsSeries};

verus! {

/// How a resampler collapses the points that fall into one bucket.
#[derive(Copy, Clone, Debug, PartialEq, Eq)]
pub enum TsResampleMode {
    Mean,
    Last,
    First,
    Sum,
    Count,
    Min,
    Max,
}

/// The start of the bucket holding `ts`: `ts` rounded down to a multiple of
/// `period`.
pub open spec fn bucket_of(ts: i64, period: i64) -> int {
    (ts as int / period as int) * period
}

/// One bucket of a resample: its start and the run `[from, to)` of point
/// positions it holds.
#[derive(Copy, Clone, Debug, PartialEq, Eq)]
pub struct TsBucket {
    pub start: i64,
    pub from: usize,
    pub to: usize,
}

/// The buckets partition the points, in order, into non-empty runs that
/// share a bucket start; consecutive runs have increasing starts.
pub open spec fn buckets_of<T>(pts: Seq<TsPoint<T>>, period: i64, bs: Seq<TsBucket>) -> bool {
    &&& (pts.len() == 0) == (bs.len() == 0)
    &&& bs.len() > 0 ==> bs[0].from == 0 && bs.last().to == pts.len()
    &&& forall|k: int| 0 <= k < bs.len() ==> #[trigger] bs[k].from < bs[k].to
    &&& forall|k: int| 0 <= k < bs.len() - 1 ==> #[trigger] bs[k].to == bs[k + 1].from
    &&& forall|k: int, i: int|
        0 <= k < bs.len() && bs[k].from <= i < bs[k].to ==> bucket_of(#[trigger] pts[i].ts, period)
            == #[trigger] bs[k].start
    &&& forall|k: int| 0 <= k < bs.len() - 1 ==> #[trigger] bs[k].start < bs[k + 1].start
}

proof fn lemma_bucket_bounds(ts: i64, period: i64)
    requires
        period > 0,
    ensures
        bucket_of(ts, period) <= ts,
        ts < bucket_of(ts, period) + period,
{
    vstd::arithmetic::div_mod::lemma_fundamental_div_mod(ts as int, period as int);
    assert((ts as int / period as int) * period == period * (ts as int / period as int))
        by (nonlinear_arith);
}

proof fn lemma_bucket_monotone(a: i64, b: i64, period: i64)
    requires
        period > 0,
        a <= b,
    ensures
        bucket_of(a, period) <= bucket_of(b, period),
{
    vstd::arithmetic::div_mod::lemma_div_is_ordered(a as int, b as int, period as int);
    let qa = a as int / period as int;
    let qb = b as int / period as int;
    assert(qa * period <= qb * period) by (nonlinear_arith)
        requires
            qa <= qb,
            period > 0,
    ;
}

/// The start of the bucket holding `ts`.
fn bucket_start(ts: i64, period: i64) -> (s: i64)
    requires
        period > 0,
        bucket_of(ts, period) >= i64::MIN,
    ensures
        s == bucket_of(ts, period),
{
    proof {
        lemma_bucket_bounds(ts, period);
    }
    let p = period as u64;
    if ts >= 0 {
        let q = (ts as u64) / p;
        proof {
            assert(q == ts as int / period as int);
            assert(q * p <= ts) by (nonlinear_arith)
                requires
                    q * p == bucket_of(ts, period),
                    bucket_of(ts, period) <= ts,
            ;
        }
        (q * p) as i64
    } else {
        let m: u64 = (0i128 - ts as i128) as u64;
        let c = (m + p - 1) / p;
        proof {
            let qf = ts as int / period as int;
            let rf = ts as int % period as int;
            vstd::arithmetic::div_mod::lemma_fundamental_div_mod(ts as int, period as int);
            assert(m + p - 1 == (-qf) * p + (p - 1 - rf)) by (nonlinear_arith)
                requires
                    ts == period * qf + rf,
                    m == -ts,
                    p == period,
            ;
            vstd::arithmetic::div_mod::lemma_fundamental_div_mod_converse(
                (m + p - 1) as int,
                p as int,
                -qf,
                p - 1 - rf,
            );
            assert(c == -qf);
            assert(c * p == -bucket_of(ts, period)) by (nonlinear_arith)
                requires
                    c == -qf,
                    bucket_of(ts, period) == qf * period,
                    p == period,
            ;
        }
        let cp = c * p;
        (0i128 - cp as i128) as i64
    }
}

/// Does the bucket holding `ts` start inside the `i64` range?
fn bucket_start_fits(ts: i64, period: i64) -> (b: bool)
    requires
        period > 0,
    ensures
        b == (bucket_of(ts, period) >= i64::MIN),
{
    proof {
        lemma_bucket_bounds(ts, period);
    }
    if ts >= 0 {
        proof {
            vstd::arithmetic::div_mod::lemma_div_pos_is_pos(ts as int, period as int);
            assert(bucket_of(ts, period) >= 0) by (nonlinear_arith)
                requires
                    ts as int / period as int >= 0,
                    period > 0,
                    bucket_of(ts, period) == (ts as int / period as int) * period,
            ;
        }
        return true;
    }
    let p = period as u64;
    let m: u64 = (0i128 - ts as i128) as u64;
    let c = (m + p - 1) / p;
    proof {
        let qf = ts as int / period as int;
        let rf = ts as int % period as int;
        vstd::arithmetic::div_mod::lemma_fundamental_div_mod(ts as int, period as int);
        assert(m + p - 1 == (-qf) * p + (p - 1 - rf)) by (nonlinear_arith)
            requires
                ts == period * qf + rf,
                m == -ts,
                p == period,
        ;
        vstd::arithmetic::div_mod::lemma_fundamental_div_mod_converse(
            (m + p - 1) as int,
            p as int,
            -qf,
            p - 1 - rf,
        );
        assert(c * p == -bucket_of(ts, period)) by (nonlinear_arith)
            requires
                c == -qf,
                bucket_of(ts, period) == qf * period,
                p == period,
        ;
    }
    (c as u128) * (p as u128) <= 0x8000_0000_0000_0000u128
}

/// [`resample_buckets`] when every bucket start fits in an `i64`; `None`
/// when some point's bucket would start below `i64::MIN`.
pub fn try_resample_buckets<T: Clone>(series: &TsSeries<T>, period_ns: i64) -> (r: Option<Vec<TsBucket>>)
    ensures
        r is None <==> (period_ns > 0 && exists|i: int|
            0 <= i < series@.len() && bucket_of(#[trigger] series@[i].ts, period_ns) < i64::MIN),
        r matches Some(v) ==> (period_ns <= 0 ==> v@.len() == 0) && (period_ns > 0 ==> buckets_of(
            series@,
            period_ns,
            v@,
        )),
{
    if period_ns > 0 {
        let pts = series.iter();
        let mut i: usize = 0;
        while i < pts.len()
            invariant
                i <= pts@.len(),
                period_ns > 0,
                points_cloned(series@, pts@),
                forall|j: int| 0 <= j < i ==> bucket_of(#[trigger] series@[j].ts, period_ns) >= i64::MIN,
            decreases pts@.len() - i,
        {
            assert(point_cloned(series@[i as int], pts@[i as int]));
            if !bucket_start_fits(pts[i].ts, period_ns) {
                return None;
            }
            i = i + 1;
        }
    }
    Some(resample_buckets(series, period_ns))
}

/// The buckets of `series` on a `period_ns` grid: runs of consecutive points
/// sharing a bucket start, in order. A non-positive period forms none.
#[verifier::rlimit(80)]
pub fn resample_buckets<T: Clone>(series: &TsSeries<T>, period_ns: i64) -> (r: Vec<TsBucket>)
    requires
        period_ns > 0 ==> forall|i: int|
            0 <= i < series@.len() ==> bucket_of(#[trigger] series@[i].ts, period_ns) >= i64::MIN,
    ensures
        period_ns <= 0 ==> r@.len() == 0,
        period_ns > 0 ==> buckets_of(series@, period_ns, r@),
{
    let mut out: Vec<TsBucket> = Vec::new();
    if period_ns <= 0 {
        return out;
    }
    let pts = series.iter();
    let n = pts.len();
    assert forall|j: int| 0 <= j < pts@.len() implies bucket_of(#[trigger] pts@[j].ts, period_ns)
        >= i64::MIN by {
        assert(point_cloned(series@[j], pts@[j]));
    }
    let mut i: usize = 0;
    while i < n
        invariant
            i <= n == pts@.len(),
            points_cloned(series@, pts@),
            ts_sorted(pts@),
            period_ns > 0,
            forall|j: int| 0 <= j < pts@.len() ==> bucket_of(#[trigger] pts@[j].ts, period_ns) >= i64::MIN,
            buckets_of(pts@.take(i as int), period_ns, out@),
            forall|k: int| 0 <= k < out@.len() ==> #[trigger] out@[k].to <= i,
        decreases n - i,
    {
        let ghost pre = pts@.take(i as int);
        let ghost post = pts@.take(i + 1);
        assert(forall|j: int| 0 <= j < i ==> #[trigger] post[j] == pre[j]);
        assert(post[i as int] == pts@[i as int]);
        let s = bucket_start(pts[i].ts, period_ns);
        let len = out.len();
        if len > 0 && out[len - 1].start == s {
            let ghost o = out@;
            let mut b = out[len - 1];
            b.to = i + 1;
            out.set(len - 1, b);
            proof {
                assert(out@ == o.update(len - 1, b));
                assert forall|k: int, j: int|
                    0 <= k < out@.len() && out@[k].from <= j < out@[k].to implies bucket_of(
                    #[trigger] post[j].ts,
                    period_ns,
                ) == #[trigger] out@[k].start by {
                    if !(k == len - 1 && j == i) {
                        assert(o[k].from <= j < o[k].to);
                        assert(o[k].to <= i);
                        assert(post[j] == pre[j]);
                        assert(bucket_of(pre[j].ts, period_ns) == o[k].start);
                    }
                }
            }
        } else {
            let ghost o = out@;
            let b = TsBucket { start: s, from: i, to: i + 1 };
            out.push(b);
            proof {
                if len > 0 {
                    assert(o.last().to == i);
                    let f = o[len - 1].from;
                    assert(o[len - 1].from < o[len - 1].to);
                    assert(bucket_of(pre[f as int].ts, period_ns) == o[len - 1].start);
                    lemma_bucket_monotone(pts@[f as int].ts, pts@[i as int].ts, period_ns);
                }
                assert forall|k: int, j: int|
                    0 <= k < out@.len() && out@[k].from <= j < out@[k].to implies bucket_of(
                    #[trigger] post[j].ts,
                    period_ns,
                ) == #[trigger] out@[k].start by {
                    if k < len {
                        assert(out@[k] == o[k]);
                        assert(o[k].from <= j < o[k].to);
                        assert(o[k].to <= i);
                        assert(post[j] == pre[j]);
                        assert(bucket_of(pre[j].ts, period_ns) == o[k].start);
                    }
                }
                assert forall|k: int| 0 <= k < out@.len() - 1 implies #[trigger] out@[k].start
                    < out@[k + 1].start by {
                    if k < len - 1 {
                        assert(out@[k] == o[k] && out@[k + 1] == o[k + 1]);
                    }
                }
                assert forall|k: int| 0 <= k < out@.len() - 1 implies #[trigger] out@[k].to
                    == out@[k + 1].from by {
                    if k < len - 1 {
                        assert(out@[k] == o[k] && out@[k + 1] == o[k + 1]);
                    }
                }
            }
        }
        i = i + 1;
    }
    assert(pts@.take(n as int) =~= pts@);
    proof {
        assert forall|j: int| 0 <= j < pts@.len() implies #[trigger] pts@[j].ts == series@[j].ts by {
            assert(point_cloned(series@[j], pts@[j]));
        }
        lemma_buckets_same_stamps(pts@, series@, period_ns, out@);
    }
    out
}

/// Bucketing reads only the stamps: two runs with the same stamps have the
/// same buckets.
proof fn lemma_buckets_same_stamps<T>(a: Seq<TsPoint<T>>, b: Seq<TsPoint<T>>, period: i64, bs: Seq<TsBucket>)
    requires
        buckets_of(a, period, bs),
        a.len() == b.len(),
        forall|i: int| 0 <= i < a.len() ==> #[trigger] a[i].ts == b[i].ts,
    ensures
        buckets_of(b, period, bs),
{
    assert forall|k: int, i: int| 0 <= k < bs.len() && bs[k].from <= i < bs[k].to implies bucket_of(
        #[trigger] b[i].ts,
        period,
    ) == #[trigger] bs[k].start by {
        lemma_bucket_end_bound(bs, k);
        assert(a[i].ts == b[i].ts);
        assert(bucket_of(a[i].ts, period) == bs[k].start);
    }
}

/// Chained buckets end no later than the last one does.
proof fn lemma_bucket_end_bound(bs: Seq<TsBucket>, k: int)
    requires
        0 <= k < bs.len(),
        forall|j: int| 0 <= j < bs.len() ==> #[trigger] bs[j].from < bs[j].to,
        forall|j: int| 0 <= j < bs.len() - 1 ==> #[trigger] bs[j].to == bs[j + 1].from,
    ensures
        bs[k].to <= bs.last().to,
    decreases bs.len() - k,
{
    if k < bs.len() - 1 {
        lemma_bucket_end_bound(bs, k + 1);
        assert(bs[k].to == bs[k + 1].from);
        assert(bs[k + 1].from < bs[k + 1].to);
    }
}

} // verus!
