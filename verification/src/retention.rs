//! Retention policies that prune a [`TsSeries`] in place by age, point count,
//! or approximate byte budget, through the series' own delete surface.
//!
//! A policy combines its configured limits with "most restrictive wins": age
//! is applied first (drop everything older than `max_age_ns` behind the
//! latest point), then the count cap (the tighter of `max_points` and the
//! point budget implied by `max_bytes`) keeps only the newest points.

use vstd::prelude::*;

use crate::point::TsPoint;
use crate::series::TsSeries;

verus! {

/// On-heap footprint charged per point for the byte budget: an `i64`
/// timestamp plus a value column cell.
pub const BYTES_PER_POINT: usize = 16;

/// `a - b`, clamped to the `i64` range.
pub open spec fn sat_sub_i64(a: i64, b: i64) -> i64 {
    if a - b < i64::MIN {
        i64::MIN
    } else if a - b > i64::MAX {
        i64::MAX
    } else {
        (a - b) as i64
    }
}

fn saturating_sub_i64(a: i64, b: i64) -> (r: i64)
    ensures
        r == sat_sub_i64(a, b),
{
    if b > 0 && a < i64::MIN + b {
        i64::MIN
    } else if b < 0 && a > i64::MAX + b {
        i64::MAX
    } else {
        a - b
    }
}

/// The points the age limit keeps: those no older than `age` behind the
/// latest point (no change without a limit or on an empty series).
pub open spec fn age_kept<T>(s: Seq<TsPoint<T>>, age: Option<i64>) -> Seq<TsPoint<T>> {
    match age {
        Some(a) => if s.len() > 0 {
            s.filter(|p: TsPoint<T>| p.ts >= sat_sub_i64(s.last().ts, a))
        } else {
            s
        },
        None => s,
    }
}

/// The points the count cap keeps: the newest `cap` (all without a cap).
pub open spec fn cap_kept<T>(s: Seq<TsPoint<T>>, cap: Option<usize>) -> Seq<TsPoint<T>> {
    match cap {
        Some(c) => if s.len() > c {
            s.skip(s.len() - c)
        } else {
            s
        },
        None => s,
    }
}

/// A retention policy. All limits are optional; an unset limit is not
/// applied. Build with the chained setters; apply with
/// [`apply`](TsRetentionPolicy::apply).
#[derive(Clone, Copy, Debug, PartialEq, Eq)]
pub struct TsRetentionPolicy {
    max_age_ns: Option<i64>,
    max_points: Option<usize>,
    max_bytes: Option<usize>,
}

impl TsRetentionPolicy {
    pub closed spec fn spec_max_age(&self) -> Option<i64> {
        self.max_age_ns
    }

    pub closed spec fn spec_max_points(&self) -> Option<usize> {
        self.max_points
    }

    pub closed spec fn spec_max_bytes(&self) -> Option<usize> {
        self.max_bytes
    }

    /// The tighter of `max_points` and the point budget of `max_bytes`.
    pub open spec fn spec_point_cap(&self) -> Option<usize> {
        match (self.spec_max_points(), self.spec_max_bytes()) {
            (Some(a), Some(b)) => Some(
                if a <= b / BYTES_PER_POINT {
                    a
                } else {
                    b / BYTES_PER_POINT
                },
            ),
            (Some(a), None) => Some(a),
            (None, Some(b)) => Some(b / BYTES_PER_POINT),
            (None, None) => None,
        }
    }

    /// A policy with no limits.
    pub fn new() -> (p: Self)
        ensures
            p.spec_max_age() is None,
            p.spec_max_points() is None,
            p.spec_max_bytes() is None,
    {
        TsRetentionPolicy { max_age_ns: None, max_points: None, max_bytes: None }
    }

    /// Keep only points within `age` of the most recent timestamp.
    pub fn max_age_ns(self, age: i64) -> (p: Self)
        ensures
            p.spec_max_age() == Some(age),
            p.spec_max_points() == self.spec_max_points(),
            p.spec_max_bytes() == self.spec_max_bytes(),
    {
        TsRetentionPolicy { max_age_ns: Some(age), ..self }
    }

    /// Keep at most the newest `n` points.
    pub fn max_points(self, n: usize) -> (p: Self)
        ensures
            p.spec_max_points() == Some(n),
            p.spec_max_age() == self.spec_max_age(),
            p.spec_max_bytes() == self.spec_max_bytes(),
    {
        TsRetentionPolicy { max_points: Some(n), ..self }
    }

    /// Keep at most `bytes` worth of points (newest first), at
    /// [`BYTES_PER_POINT`] each.
    pub fn max_bytes(self, bytes: usize) -> (p: Self)
        ensures
            p.spec_max_bytes() == Some(bytes),
            p.spec_max_age() == self.spec_max_age(),
            p.spec_max_points() == self.spec_max_points(),
    {
        TsRetentionPolicy { max_bytes: Some(bytes), ..self }
    }

    /// The effective point cap from `max_points` and `max_bytes` (the tighter
    /// of the two), or `None` if neither is set.
    pub fn point_cap(&self) -> (c: Option<usize>)
        ensures
            c == self.spec_point_cap(),
    {
        let from_bytes = match self.max_bytes {
            Some(b) => Some(b / BYTES_PER_POINT),
            None => None,
        };
        match (self.max_points, from_bytes) {
            (Some(a), Some(b)) => Some(
                if a <= b {
                    a
                } else {
                    b
                },
            ),
            (Some(a), None) => Some(a),
            (None, Some(b)) => Some(b),
            (None, None) => None,
        }
    }

    /// Apply the policy to `series`, returning the number of points removed.
    /// Age is applied before the count cap. No-op when the series already
    /// fits.
    pub fn apply<T: Clone>(&self, series: &mut TsSeries<T>) -> (removed: usize)
        ensures
            final(series).spec_meta() == old(series).spec_meta(),
            final(series)@ == cap_kept(age_kept(old(series)@, self.spec_max_age()), self.spec_point_cap()),
            removed == old(series)@.len() - final(series)@.len(),
    {
        let n0 = series.len();
        let mut removed: usize = 0;
        if let Some(age) = self.max_age_ns {
            if let Some(last) = series.last() {
                let cutoff = saturating_sub_i64(last.ts, age);
                removed = series.truncate_before(cutoff);
            }
        }
        let ghost mid = series@;
        assert(mid == age_kept(old(series)@, self.spec_max_age()));
        assert(removed == old(series)@.len() - mid.len());
        if let Some(cap) = self.point_cap() {
            let k = series.keep_newest(cap);
            assert(removed + k <= n0);
            removed = removed + k;
        }
        removed
    }

    /// Apply to every series (the per-collection case). Returns the total
    /// removed.
    pub fn apply_all<T: Clone>(&self, series: &mut Vec<TsSeries<T>>) -> (removed: usize)
        requires
            series_points(old(series)@) <= usize::MAX,
        ensures
            final(series)@.len() == old(series)@.len(),
            forall|i: int|
                0 <= i < old(series)@.len() ==> (#[trigger] final(series)@[i])@ == cap_kept(
                    age_kept(old(series)@[i]@, self.spec_max_age()),
                    self.spec_point_cap(),
                ) && final(series)@[i].spec_meta() == old(series)@[i].spec_meta(),
            removed == series_points(old(series)@) - series_points(final(series)@),
    {
        let ghost s0 = series@;
        let n = series.len();
        let mut removed: usize = 0;
        let mut i: usize = 0;
        while i < n
            invariant
                i <= n,
                n == s0.len(),
                s0 == old(series)@,
                series@.len() == n,
                series_points(s0) <= usize::MAX,
                forall|j: int|
                    0 <= j < i ==> (#[trigger] series@[j])@ == cap_kept(
                        age_kept(s0[j]@, self.spec_max_age()),
                        self.spec_point_cap(),
                    ) && series@[j].spec_meta() == s0[j].spec_meta(),
                forall|j: int| i <= j < n ==> #[trigger] series@[j] == s0[j],
                removed == series_points(s0.take(i as int)) - series_points(series@.take(i as int)),
            decreases n - i,
        {
            let ghost before = series@;
            let k = self.apply(&mut series[i]);
            proof {
                assert(series@ == before.update(i as int, series@[i as int]));
                assert(series@.take(i as int) =~= before.take(i as int));
                lemma_series_points_step(s0, i as int);
                lemma_series_points_step(series@, i as int);
                lemma_series_points_prefix(s0, i + 1);
            }
            removed = removed + k;
            i = i + 1;
        }
        proof {
            assert(s0.take(n as int) =~= s0);
            assert(series@.take(n as int) =~= series@);
        }
        removed
    }
}

impl Default for TsRetentionPolicy {
    fn default() -> (p: Self)
        ensures
            p.spec_max_age() is None,
            p.spec_max_points() is None,
            p.spec_max_bytes() is None,
    {
        TsRetentionPolicy::new()
    }
}

/// Total number of points across the series.
pub open spec fn series_points<T>(s: Seq<TsSeries<T>>) -> nat
    decreases s.len(),
{
    if s.len() == 0 {
        0
    } else {
        series_points(s.drop_last()) + s.last()@.len()
    }
}

proof fn lemma_series_points_step<T>(s: Seq<TsSeries<T>>, i: int)
    requires
        0 <= i < s.len(),
    ensures
        series_points(s.take(i + 1)) == series_points(s.take(i)) + s[i]@.len(),
{
    assert(s.take(i + 1).drop_last() =~= s.take(i));
}

proof fn lemma_series_points_prefix<T>(s: Seq<TsSeries<T>>, i: int)
    requires
        0 <= i <= s.len(),
    ensures
        series_points(s.take(i)) <= series_points(s),
    decreases s.len() - i,
{
    if i < s.len() {
        lemma_series_points_step(s, i);
        lemma_series_points_prefix(s, i + 1);
    } else {
        assert(s.take(i) =~= s);
    }
}

} // verus!
