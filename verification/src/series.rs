//! [`TsSeries<T>`]: a time-ordered sequence of [`TsPoint<T>`], stored as
//! parallel timestamp + value columns. Non-decreasing in `ts`; out-of-order
//! and null inserts are rejected by [`TsSeries::push`].

use vstd::prelude::*;
use vstd::std_specs::cmp::{PartialEqSpec, PartialOrdSpec};

use crate::point::{opt_point_cloned, point_cloned, points_cloned, TsPoint};
use crate::meta::{meta_same, TsSeriesMetadata};
use crate::{TsError, TsNumeric, TsValueKind};

verus! {

/// Timestamps never decrease along the sequence.
pub open spec fn ts_sorted<T>(s: Seq<TsPoint<T>>) -> bool {
    forall|i: int, j: int| 0 <= i <= j < s.len() ==> s[i].ts <= s[j].ts
}

pub open spec fn sorted_i64(s: Seq<i64>) -> bool {
    forall|i: int, j: int| 0 <= i <= j < s.len() ==> s[i] <= s[j]
}

/// `lo <= ts <= hi`: the inclusive time window of the range surface.
pub open spec fn in_window(ts: i64, lo: i64, hi: i64) -> bool {
    lo <= ts && ts <= hi
}

/// The values of a run of points, in order.
pub open spec fn values_of<T>(s: Seq<TsPoint<T>>) -> Seq<T> {
    s.map_values(|p: TsPoint<T>| p.value)
}

/// The points of `s` inside the inclusive window `[lo, hi]`, in order.
pub open spec fn window_points<T>(s: Seq<TsPoint<T>>, lo: i64, hi: i64) -> Seq<TsPoint<T>> {
    s.filter(|p: TsPoint<T>| in_window(p.ts, lo, hi))
}

/// What [`TsSeries::push`] does: a null value is refused (`NullValue`),
/// then a stamp earlier than the tail (`NotMonotonic`); otherwise the point
/// is appended. A refused push leaves the points as they were.
pub open spec fn push_result<T: TsValueKind>(
    old: Seq<TsPoint<T>>,
    new: Seq<TsPoint<T>>,
    ts: i64,
    value: T,
    r: Result<(), TsError>,
) -> bool {
    if !value.spec_is_present() {
        r matches Err(TsError::NullValue { .. }) && new == old
    } else if old.len() > 0 && ts < old.last().ts {
        r == Err::<(), TsError>(TsError::NotMonotonic { last: old.last().ts, got: ts }) && new
            == old
    } else {
        r == Ok::<(), TsError>(()) && new == old.push(TsPoint { ts, value })
    }
}

/// What [`TsSeries::delete_at`] does: `r` is the first point stamped
/// `target`, removed from `old` to give `new`; or `None` and no change when
/// no point carries that stamp.
pub open spec fn delete_at_result<T>(
    old: Seq<TsPoint<T>>,
    new: Seq<TsPoint<T>>,
    target: i64,
    r: Option<TsPoint<T>>,
) -> bool {
    match r {
        None => new == old && forall|i: int| 0 <= i < old.len() ==> old[i].ts != target,
        Some(p) => exists|i: int|
            0 <= i < old.len() && old[i] == p && p.ts == target && (forall|j: int|
                0 <= j < i ==> old[j].ts != target) && new == old.remove(i),
    }
}

/// Left-fold minimum under the value type's strict order: a later value
/// replaces the running minimum only when strictly smaller.
pub open spec fn fold_min<T: TsNumeric>(s: Seq<T>) -> Option<T>
    decreases s.len(),
{
    if s.len() == 0 {
        None
    } else {
        match fold_min(s.drop_last()) {
            None => Some(s.last()),
            Some(m) => if s.last().num_lt(m) {
                Some(s.last())
            } else {
                Some(m)
            },
        }
    }
}

/// Left-fold maximum: a later value replaces the running maximum only when
/// strictly greater.
pub open spec fn fold_max<T: TsNumeric>(s: Seq<T>) -> Option<T>
    decreases s.len(),
{
    if s.len() == 0 {
        None
    } else {
        match fold_max(s.drop_last()) {
            None => Some(s.last()),
            Some(m) => if m.num_lt(s.last()) {
                Some(s.last())
            } else {
                Some(m)
            },
        }
    }
}

/// Left-fold sum starting from the value type's zero.
pub open spec fn fold_sum<T: TsNumeric>(s: Seq<T>) -> T
    decreases s.len(),
{
    if s.len() == 0 {
        T::num_zero()
    } else {
        fold_sum(s.drop_last()).num_add(s.last())
    }
}

/// The sum a scan reports for a run of values: the zero when the run is
/// empty, else the zero plus the run's left-fold sum.
pub open spec fn span_sum<T: TsNumeric>(s: Seq<T>) -> T {
    if s.len() == 0 {
        T::num_zero()
    } else {
        T::num_zero().num_add(fold_sum(s))
    }
}

/// Index of the first point with the smallest value (ties keep the earlier).
pub open spec fn argmin<T: TsNumeric>(s: Seq<TsPoint<T>>) -> int
    decreases s.len(),
{
    if s.len() <= 1 {
        0
    } else {
        let i = argmin(s.drop_last());
        if s.last().value.num_lt(s[i].value) {
            s.len() - 1
        } else {
            i
        }
    }
}

/// Index of the first point with the largest value (ties keep the earlier).
pub open spec fn argmax<T: TsNumeric>(s: Seq<TsPoint<T>>) -> int
    decreases s.len(),
{
    if s.len() <= 1 {
        0
    } else {
        let i = argmax(s.drop_last());
        if s[i].value.num_lt(s.last().value) {
            s.len() - 1
        } else {
            i
        }
    }
}

/// The elements of `s` whose flag is set, in order.
pub open spec fn keep_by<A>(s: Seq<A>, flags: Seq<bool>) -> Seq<A>
    decreases s.len(),
{
    if s.len() == 0 || flags.len() == 0 {
        Seq::empty()
    } else {
        let rest = keep_by(s.drop_last(), flags.drop_last());
        if flags.last() {
            rest.push(s.last())
        } else {
            rest
        }
    }
}

/// Keeping by flags that agree with a predicate is filtering by it.
pub proof fn lemma_keep_by_filter<A>(s: Seq<A>, flags: Seq<bool>, pred: spec_fn(A) -> bool)
    requires
        flags.len() == s.len(),
        forall|i: int| 0 <= i < s.len() ==> flags[i] == pred(s[i]),
    ensures
        keep_by(s, flags) == s.filter(pred),
    decreases s.len(),
{
    reveal(Seq::filter);
    if s.len() > 0 {
        lemma_keep_by_filter(s.drop_last(), flags.drop_last(), pred);
    }
}

/// Keeping by flags that are set from position `d` on keeps the suffix
/// from `d`.
proof fn lemma_keep_by_suffix<A>(s: Seq<A>, flags: Seq<bool>, d: int)
    requires
        flags.len() == s.len(),
        0 <= d,
        forall|k: int| 0 <= k < s.len() ==> flags[k] == (k >= d),
    ensures
        keep_by(s, flags) == s.skip(if d < s.len() { d } else { s.len() as int }),
    decreases s.len(),
{
    if s.len() > 0 {
        lemma_keep_by_suffix(s.drop_last(), flags.drop_last(), d);
        if s.len() - 1 >= d {
            assert(s.skip(d) =~= s.drop_last().skip(d).push(s.last()));
        } else {
            assert(s.drop_last().skip(s.len() - 1) =~= Seq::<A>::empty());
            assert(s.skip(s.len() as int) =~= Seq::<A>::empty());
        }
    } else {
        assert(s.skip(0) =~= s);
    }
}

proof fn lemma_keep_by_len<A>(s: Seq<A>, flags: Seq<bool>)
    ensures
        keep_by(s, flags).len() <= s.len(),
    decreases s.len(),
{
    if s.len() > 0 && flags.len() > 0 {
        lemma_keep_by_len(s.drop_last(), flags.drop_last());
    }
}

/// A time-ordered sequence of [`TsPoint<T>`]. Non-decreasing in `ts`.
#[derive(Debug)]
pub struct TsSeries<T> {
    cols: Columns<T>,
    meta: Option<TsSeriesMetadata>,
}

/// The parallel timestamp + value columns of a series.
#[derive(Debug)]
struct Columns<T> {
    ts: Vec<i64>,
    val: Vec<T>,
}

impl<T> Columns<T> {
    spec fn points(&self) -> Seq<TsPoint<T>> {
        Seq::new(self.ts@.len(), |i: int| TsPoint { ts: self.ts@[i], value: self.val@[i] })
    }

    #[verifier::type_invariant]
    spec fn ok(&self) -> bool {
        &&& self.ts@.len() == self.val@.len()
        &&& sorted_i64(self.ts@)
    }
}

impl<T> View for TsSeries<T> {
    type V = Seq<TsPoint<T>>;

    closed spec fn view(&self) -> Seq<TsPoint<T>> {
        self.cols.points()
    }
}

impl<T: Clone> Columns<T> {
    /// A column-by-column copy; each value is cloned.
    fn duplicate(&self) -> (c: Self)
        ensures
            points_cloned(self.points(), c.points()),
    {
        proof {
            use_type_invariant(self);
        }
        let mut ts: Vec<i64> = Vec::with_capacity(self.ts.len());
        let mut val: Vec<T> = Vec::with_capacity(self.ts.len());
        for i in 0..self.ts.len()
            invariant
                self.ok(),
                ts@ == self.ts@.take(i as int),
                val@.len() == i,
                forall|k: int| 0 <= k < i ==> cloned(self.val@[k], #[trigger] val@[k]),
        {
            ts.push(self.ts[i]);
            val.push(self.val[i].clone());
            assert(ts@ =~= self.ts@.take(i + 1));
        }
        assert(ts@ =~= self.ts@);
        let c = Columns { ts, val };
        assert forall|k: int| 0 <= k < self.points().len() implies #[trigger] point_cloned(
            self.points()[k],
            c.points()[k],
        ) by {
            assert(cloned(self.val@[k], val@[k]));
        }
        c
    }
}

impl<T: Clone> Clone for TsSeries<T> {
    /// A copy of the points, each value cloned, and of the metadata block.
    fn clone(&self) -> (c: Self)
        ensures
            points_cloned(self@, c@),
            match (self.spec_meta(), c.spec_meta()) {
                (Some(a), Some(b)) => meta_same(a, b),
                (None, None) => true,
                _ => false,
            },
    {
        let meta = match &self.meta {
            Some(m) => Some(m.duplicate()),
            None => None,
        };
        TsSeries { cols: self.cols.duplicate(), meta }
    }
}

impl<T> TsSeries<T> {
    /// A series over parallel columns already in stamp order, without
    /// metadata. The values are taken as they are: a caller passes values
    /// read out of series, which were checked when they were pushed.
    pub(crate) fn from_sorted_parts(ts: Vec<i64>, val: Vec<T>) -> (s: Self)
        requires
            ts@.len() == val@.len(),
            sorted_i64(ts@),
        ensures
            s@ == Seq::new(ts@.len(), |i: int| TsPoint { ts: ts@[i], value: val@[i] }),
            s.spec_meta() is None,
    {
        TsSeries { cols: Columns { ts, val }, meta: None }
    }

    /// Internal consistency: the columns have equal length and the
    /// timestamp column is sorted.
    spec fn wf(&self) -> bool {
        self.cols.ok()
    }

    /// The metadata attached to the series, if any.
    pub closed spec fn spec_meta(&self) -> Option<TsSeriesMetadata> {
        self.meta
    }
}

/// First index whose timestamp is `>= target` (or `> target` when `strict`),
/// by binary search over a sorted column.
fn partition_ts(ts: &Vec<i64>, target: i64, strict: bool) -> (k: usize)
    requires
        sorted_i64(ts@),
    ensures
        k <= ts@.len(),
        forall|i: int| 0 <= i < k ==> if strict { ts@[i] <= target } else { ts@[i] < target },
        forall|i: int| k <= i < ts@.len() ==> if strict { ts@[i] > target } else { ts@[i] >= target },
{
    let mut lo: usize = 0;
    let mut hi: usize = ts.len();
    while lo < hi
        invariant
            lo <= hi <= ts@.len(),
            sorted_i64(ts@),
            forall|i: int| 0 <= i < lo ==> if strict { ts@[i] <= target } else { ts@[i] < target },
            forall|i: int| hi <= i < ts@.len() ==> if strict { ts@[i] > target } else { ts@[i] >= target },
        decreases hi - lo,
    {
        let mid = lo + (hi - lo) / 2;
        let below = if strict { ts[mid] <= target } else { ts[mid] < target };
        if below {
            lo = mid + 1;
        } else {
            hi = mid;
        }
    }
    lo
}

impl<T: Clone> TsSeries<T> {

    /// Detach the columns, leaving empty ones behind.
    fn take_cols(&mut self) -> (c: Columns<T>)
        ensures
            c == old(self).cols,
            c.ok(),
            c.points() == old(self)@,
            final(self)@ == Seq::<TsPoint<T>>::empty(),
            final(self).spec_meta() == old(self).spec_meta(),
    {
        proof {
            use_type_invariant(&self.cols);
        }
        let mut c = Columns { ts: Vec::new(), val: Vec::new() };
        std::mem::swap(&mut c, &mut self.cols);
        assert(self@ =~= Seq::<TsPoint<T>>::empty());
        proof {
            use_type_invariant(&c);
        }
        c
    }

    /// Install columns.
    fn put_cols(&mut self, c: Columns<T>)
        requires
            c.ok(),
        ensures
            final(self).cols == c,
            final(self)@ == c.points(),
            final(self).spec_meta() == old(self).spec_meta(),
    {
        self.cols = c;
    }

    /// Attach identity + schema + tags + deps.
    pub fn with_metadata(self, meta: TsSeriesMetadata) -> (s: Self)
        ensures
            s@ == self@,
            s.spec_meta() == Some(meta),
    {
        proof {
            use_type_invariant(&self.cols);
        }
        let mut s = self;
        s.meta = Some(meta);
        s
    }

    pub fn metadata(&self) -> (m: Option<&TsSeriesMetadata>)
        ensures
            m == match self.spec_meta() {
                Some(x) => Some(&x),
                None => None::<&TsSeriesMetadata>,
            },
    {
        proof {
            use_type_invariant(&self.cols);
        }
        self.meta.as_ref()
    }

    pub fn metadata_mut(&mut self) -> (m: Option<&mut TsSeriesMetadata>)
        ensures
            final(self)@ == old(self)@,
            match m {
                Some(x) => old(self).spec_meta() == Some(*x) && final(self).spec_meta() == Some(
                    *final(x),
                ),
                None => old(self).spec_meta() is None && final(self).spec_meta() is None,
            },
    {
        proof {
            use_type_invariant(&self.cols);
        }
        self.meta.as_mut()
    }

    pub fn set_metadata(&mut self, meta: TsSeriesMetadata)
        ensures
            final(self)@ == old(self)@,
            final(self).spec_meta() == Some(meta),
    {
        proof {
            use_type_invariant(&self.cols);
        }
        self.meta = Some(meta);
    }

    fn point(&self, i: usize) -> (p: TsPoint<T>)
        requires
            self.wf(),
            i < self@.len(),
        ensures
            point_cloned(self@[i as int], p),
    {
        TsPoint { ts: self.cols.ts[i], value: self.cols.val[i].clone() }
    }

    pub fn new() -> (s: Self)
        ensures
            s@ == Seq::<TsPoint<T>>::empty(),
            s.spec_meta() is None,
    {
        let s = TsSeries { cols: Columns { ts: Vec::new(), val: Vec::new() }, meta: None };
        assert(s@ =~= Seq::<TsPoint<T>>::empty());
        s
    }

    /// An empty series whose columns reserve room for `cap` points.
    pub fn with_capacity(cap: usize) -> (s: Self)
        ensures
            s@ == Seq::<TsPoint<T>>::empty(),
            s.spec_meta() is None,
    {
        let s = TsSeries {
            cols: Columns { ts: Vec::with_capacity(cap), val: Vec::with_capacity(cap) },
            meta: None,
        };
        assert(s@ =~= Seq::<TsPoint<T>>::empty());
        s
    }

    /// Append an observation. Rejects a null value (`NullValue`) and then a
    /// timestamp earlier than the tail (`NotMonotonic`); an equal timestamp
    /// is accepted.
    pub fn push(&mut self, ts: i64, value: T) -> (r: Result<(), TsError>)
        where
            T: TsValueKind,
        ensures
            final(self).spec_meta() == old(self).spec_meta(),
            push_result(old(self)@, final(self)@, ts, value, r),
    {
        proof {
            use_type_invariant(&self.cols);
        }
        if !value.ts_is_present() {
            return Err(TsError::NullValue { hint: "non-finite or null observation" });
        }
        let n = self.cols.ts.len();
        if n > 0 {
            let last = self.cols.ts[n - 1];
            if ts < last {
                return Err(TsError::NotMonotonic { last, got: ts });
            }
        }
        let ghost before = self@;
        let Columns { ts: mut cts, val: mut cval } = self.take_cols();
        cts.push(ts);
        cval.push(value);
        let c = Columns { ts: cts, val: cval };
        assert(c.points() =~= before.push(TsPoint { ts, value }));
        self.put_cols(c);
        Ok(())
    }

    /// Build from points already in non-decreasing ts order. Returns the
    /// error `push` gives for the first offending point.
    pub fn from_points(points: Vec<TsPoint<T>>) -> (r: Result<Self, TsError>)
        where
            T: TsValueKind,
        ensures
            match r {
                Ok(s) => s@ == points@ && s.spec_meta() is None && ts_sorted(points@) && forall|i: int|
                    0 <= i < points@.len() ==> #[trigger] points@[i].value.spec_is_present(),
                Err(e) => exists|k: int|
                    0 <= k < points@.len() && ts_sorted(points@.take(k)) && (forall|i: int|
                        0 <= i < k ==> #[trigger] points@[i].value.spec_is_present()) && if !points@[k].value.spec_is_present() {
                        e matches TsError::NullValue { .. }
                    } else {
                        k > 0 && points@[k].ts < points@[k - 1].ts && e == TsError::NotMonotonic {
                            last: points@[k - 1].ts,
                            got: points@[k].ts,
                        }
                    },
            },
    {
        let ghost pts = points@;
        let mut s = Self::with_capacity(points.len());
        for p in it: points.into_iter()
            invariant
                it.seq() == pts,
                s@ == pts.take(it.index() as int),
                s.spec_meta() is None,
                ts_sorted(pts.take(it.index() as int)),
                forall|j: int| 0 <= j < it.index() ==> #[trigger] pts[j].value.spec_is_present(),
        {
            let ghost i = it.index() as int;
            let ghost before = s@;
            let ghost gp = p;
            match s.push(p.ts, p.value) {
                Ok(()) => {
                    assert(pts.take(i + 1) =~= pts.take(i).push(gp));
                },
                Err(e) => {
                    proof {
                        if gp.value.spec_is_present() {
                            assert(before.len() == i);
                            assert(before.last() == pts[i - 1]);
                        }
                    }
                    return Err(e);
                },
            }
        }
        assert(points@.take(points@.len() as int) =~= points@);
        Ok(s)
    }

    pub fn len(&self) -> (n: usize)
        ensures
            n == self@.len(),
    {
        proof {
            use_type_invariant(&self.cols);
        }
        self.cols.ts.len()
    }

    pub fn is_empty(&self) -> (b: bool)
        ensures
            b == (self@.len() == 0),
    {
        proof {
            use_type_invariant(&self.cols);
        }
        self.cols.ts.len() == 0
    }

    pub fn first(&self) -> (r: Option<TsPoint<T>>)
        ensures
            opt_point_cloned(
                if self@.len() == 0 {
                    None
                } else {
                    Some(self@[0])
                },
                r,
            ),
    {
        proof {
            use_type_invariant(&self.cols);
        }
        if self.cols.ts.len() == 0 {
            None
        } else {
            Some(self.point(0))
        }
    }

    pub fn last(&self) -> (r: Option<TsPoint<T>>)
        ensures
            opt_point_cloned(
                if self@.len() == 0 {
                    None
                } else {
                    Some(self@.last())
                },
                r,
            ),
    {
        proof {
            use_type_invariant(&self.cols);
        }
        let n = self.cols.ts.len();
        if n == 0 {
            None
        } else {
            Some(self.point(n - 1))
        }
    }

    /// Every point in time order, each value cloned.
    pub fn iter(&self) -> (v: Vec<TsPoint<T>>)
        ensures
            points_cloned(self@, v@),
            ts_sorted(v@),
    {
        proof {
            use_type_invariant(&self.cols);
            assert forall|i: int, j: int| 0 <= i <= j < self@.len() implies self@[i].ts <= self@[j].ts by {
                assert(self@[i].ts == self.cols.ts@[i]);
                assert(self@[j].ts == self.cols.ts@[j]);
            }
        }
        let mut v: Vec<TsPoint<T>> = Vec::with_capacity(self.cols.ts.len());
        for i in 0..self.cols.ts.len()
            invariant
                self.wf(),
                v@.len() == i,
                forall|k: int| 0 <= k < i ==> point_cloned(self@[k], #[trigger] v@[k]),
        {
            let p = self.point(i);
            v.push(p);
        }
        v
    }

    // ---------- time queries ----------

    /// Exact match: the first point whose ts equals `target`.
    pub fn get_at(&self, target: i64) -> (r: Option<TsPoint<T>>)
        ensures
            match r {
                None => forall|i: int| 0 <= i < self@.len() ==> self@[i].ts != target,
                Some(p) => exists|i: int|
                    0 <= i < self@.len() && point_cloned(self@[i], p) && p.ts == target
                        && forall|j: int| 0 <= j < i ==> self@[j].ts != target,
            },
    {
        proof {
            use_type_invariant(&self.cols);
        }
        let k = partition_ts(&self.cols.ts, target, false);
        if k < self.cols.ts.len() && self.cols.ts[k] == target {
            let p = self.point(k);
            assert(point_cloned(self@[k as int], p));
            Some(p)
        } else {
            assert forall|i: int| 0 <= i < self@.len() implies self@[i].ts != target by {
                if i > k {
                    assert(self.cols.ts@[k as int] <= self.cols.ts@[i]);
                }
            }
            None
        }
    }

    /// Largest-ts point with ts <= `target` (the last such point).
    pub fn nearest_before(&self, target: i64) -> (r: Option<TsPoint<T>>)
        ensures
            match r {
                None => forall|i: int| 0 <= i < self@.len() ==> self@[i].ts > target,
                Some(p) => exists|i: int|
                    0 <= i < self@.len() && point_cloned(self@[i], p) && p.ts <= target
                        && forall|j: int| i < j < self@.len() ==> self@[j].ts > target,
            },
    {
        proof {
            use_type_invariant(&self.cols);
        }
        let k = partition_ts(&self.cols.ts, target, true);
        if k == 0 {
            None
        } else {
            let p = self.point(k - 1);
            assert(point_cloned(self@[k - 1], p));
            Some(p)
        }
    }

    /// Smallest-ts point with ts >= `target` (the first such point).
    pub fn nearest_after(&self, target: i64) -> (r: Option<TsPoint<T>>)
        ensures
            match r {
                None => forall|i: int| 0 <= i < self@.len() ==> self@[i].ts < target,
                Some(p) => exists|i: int|
                    0 <= i < self@.len() && point_cloned(self@[i], p) && p.ts >= target
                        && forall|j: int| 0 <= j < i ==> self@[j].ts < target,
            },
    {
        proof {
            use_type_invariant(&self.cols);
        }
        let k = partition_ts(&self.cols.ts, target, false);
        if k < self.cols.ts.len() {
            let p = self.point(k);
            assert(point_cloned(self@[k as int], p));
            Some(p)
        } else {
            None
        }
    }

    /// Closest point by absolute ts distance; a tie resolves to the earlier
    /// (the `nearest_before` candidate).
    pub fn nearest(&self, target: i64) -> (r: Option<TsPoint<T>>)
        ensures
            (r is None) <==> self@.len() == 0,
            r matches Some(p) ==> exists|i: int| 0 <= i < self@.len() && point_cloned(self@[i], p),
            r matches Some(p) ==> forall|i: int|
                0 <= i < self@.len() ==> dist(p.ts, target) <= dist(#[trigger] self@[i].ts, target),
            r matches Some(p) ==> (p.ts > target ==> forall|i: int|
                0 <= i < self@.len() ==> dist(p.ts, target) < dist(#[trigger] self@[i].ts, target)
                    || self@[i].ts > target),
    {
        proof {
            use_type_invariant(&self.cols);
        }
        let b = self.nearest_before(target);
        let a = self.nearest_after(target);
        match (b, a) {
            (Some(b), Some(a)) => {
                if (target as i128 - b.ts as i128) <= (a.ts as i128 - target as i128) {
                    Some(b)
                } else {
                    Some(a)
                }
            },
            (Some(b), None) => Some(b),
            (None, Some(a)) => Some(a),
            (None, None) => {
                assert(self@.len() > 0 ==> self@[0].ts > target && self@[0].ts < target);
                None
            },
        }
    }

    /// Index bounds `[start, end)` of the points inside `[lo, hi]`.
    fn span_bounds(&self, lo: i64, hi: i64) -> (b: (usize, usize))
        requires
            self.wf(),
        ensures
            b.0 <= b.1 <= self@.len(),
            window_points(self@, lo, hi) == self@.subrange(b.0 as int, b.1 as int),
    {
        if lo > hi {
            proof {
                lemma_window_empty(self@, lo, hi);
                assert(self@.subrange(0, 0) =~= Seq::<TsPoint<T>>::empty());
            }
            return (0, 0);
        }
        let start = partition_ts(&self.cols.ts, lo, false);
        let end = partition_ts(&self.cols.ts, hi, true);
        proof {
            lemma_window_is_slice(self@, lo, hi, start as int, end as int);
        }
        (start, end)
    }

    /// The window `[lo, hi]` of points as a vector, each value cloned.
    fn window(&self, lo: i64, hi: i64) -> (v: Vec<TsPoint<T>>)
        requires
            self.wf(),
        ensures
            points_cloned(window_points(self@, lo, hi), v@),
    {
        let (start, end) = self.span_bounds(lo, hi);
        let mut v: Vec<TsPoint<T>> = Vec::new();
        let mut i = start;
        while i < end
            invariant
                self.wf(),
                start <= i <= end <= self@.len(),
                v@.len() == i - start,
                forall|k: int| 0 <= k < i - start ==> point_cloned(self@[start + k], #[trigger] v@[k]),
            decreases end - i,
        {
            let p = self.point(i);
            v.push(p);
            i = i + 1;
        }
        v
    }

    /// Inclusive `[lo, hi]` range, in time order (empty when `lo > hi`).
    pub fn range(&self, lo: i64, hi: i64) -> (r: TsRange<T>)
        ensures
            points_cloned(window_points(self@, lo, hi), r@),
    {
        proof {
            use_type_invariant(&self.cols);
        }
        let v = self.window(lo, hi);
        TsRange { points: v }
    }

    // ---------- delete surface ----------

    /// Keep exactly the points whose flag is set; returns the count removed.
    fn retain_flags(&mut self, flags: &Vec<bool>) -> (removed: usize)
        requires
            old(self).wf(),
            flags@.len() == old(self)@.len(),
        ensures
            final(self).wf(),
            final(self).spec_meta() == old(self).spec_meta(),
            final(self)@ == keep_by(old(self)@, flags@),
            removed == old(self)@.len() - final(self)@.len(),
    {
        let n = self.cols.ts.len();
        let ghost old_view = self@;
        let Columns { ts: cts, val: cval } = self.take_cols();
        let ghost vals = cval@;
        let mut nts: Vec<i64> = Vec::new();
        let mut nval: Vec<T> = Vec::new();
        let mut i: usize = 0;
        for v in it: cval.into_iter()
            invariant
                it.seq() == vals,
                i == it.index(),
                n == cts@.len() == vals.len() == old_view.len(),
                sorted_i64(cts@),
                old_view == Seq::new(n as nat, |k: int| TsPoint { ts: cts@[k], value: vals[k] }),
                flags@.len() == n,
                nts@.len() == nval@.len(),
                sorted_i64(nts@),
                forall|k: int, j: int| 0 <= k < nts@.len() && i <= j < n ==> nts@[k] <= cts@[j],
                Seq::new(nts@.len(), |k: int| TsPoint { ts: nts@[k], value: nval@[k] })
                    == keep_by(old_view.take(i as int), flags@.take(i as int)),
        {
            let ghost prev = Seq::new(nts@.len(), |k: int| TsPoint { ts: nts@[k], value: nval@[k] });
            if flags[i] {
                nts.push(cts[i]);
                nval.push(v);
            }
            proof {
                assert(old_view.take(i + 1).drop_last() =~= old_view.take(i as int));
                assert(flags@.take(i + 1).drop_last() =~= flags@.take(i as int));
                let cur = Seq::new(nts@.len(), |k: int| TsPoint { ts: nts@[k], value: nval@[k] });
                if flags@[i as int] {
                    assert(cur =~= prev.push(old_view[i as int]));
                } else {
                    assert(cur =~= prev);
                }
            }
            i = i + 1;
        }
        proof {
            assert(old_view.take(n as int) =~= old_view);
            assert(flags@.take(n as int) =~= flags@);
            lemma_keep_by_len(old_view, flags@);
        }
        assert(nts@.len() == nval@.len() && sorted_i64(nts@));
        let c = Columns { ts: nts, val: nval };
        assert(c.points() =~= keep_by(old_view, flags@));
        let kept = c.ts.len();
        self.put_cols(c);
        n - kept
    }

    /// Keep the points whose timestamp lies inside `[lo, hi]` (or outside it
    /// when `inside` is false); returns the count removed.
    fn retain_window(&mut self, lo: i64, hi: i64, inside: bool) -> (removed: usize)
        requires
            old(self).wf(),
        ensures
            final(self).wf(),
            final(self).spec_meta() == old(self).spec_meta(),
            final(self)@ == old(self)@.filter(|p: TsPoint<T>| in_window(p.ts, lo, hi) == inside),
            removed == old(self)@.len() - final(self)@.len(),
    {
        let n = self.cols.ts.len();
        let mut flags: Vec<bool> = Vec::with_capacity(n);
        for i in 0..n
            invariant
                n == self@.len(),
                self.wf(),
                flags@.len() == i,
                forall|k: int| 0 <= k < i ==> flags@[k] == (in_window(self@[k].ts, lo, hi) == inside),
        {
            let t = self.cols.ts[i];
            flags.push((lo <= t && t <= hi) == inside);
        }
        proof {
            lemma_keep_by_filter(self@, flags@, |p: TsPoint<T>| in_window(p.ts, lo, hi) == inside);
        }
        self.retain_flags(&flags)
    }

    /// Remove + return the first point whose ts equals `target`.
    pub fn delete_at(&mut self, target: i64) -> (r: Option<TsPoint<T>>)
        ensures
            final(self).spec_meta() == old(self).spec_meta(),
            delete_at_result(old(self)@, final(self)@, target, r),
    {
        proof {
            use_type_invariant(&self.cols);
        }
        let k = partition_ts(&self.cols.ts, target, false);
        if k < self.cols.ts.len() && self.cols.ts[k] == target {
            let ghost before = self@;
            let Columns { ts: mut cts, val: mut cval } = self.take_cols();
            let ghost bts = cts@;
            let ts = cts.remove(k);
            let value = cval.remove(k);
            proof {
                assert(cts@ =~= bts.remove(k as int));
                assert(sorted_i64(cts@));
            }
            let c = Columns { ts: cts, val: cval };
            proof {
                assert(c.points() =~= before.remove(k as int));
                assert(before[k as int] == TsPoint { ts, value });
            }
            self.put_cols(c);
            Some(TsPoint { ts, value })
        } else {
            assert forall|i: int| 0 <= i < self@.len() implies self@[i].ts != target by {
                if i > k {
                    assert(self.cols.ts@[k as int] <= self.cols.ts@[i]);
                }
            }
            None
        }
    }

    /// Remove every point in `[lo, hi]`. Returns the count removed.
    pub fn delete_range(&mut self, lo: i64, hi: i64) -> (removed: usize)
        ensures
            final(self).spec_meta() == old(self).spec_meta(),
            final(self)@ == old(self)@.filter(|p: TsPoint<T>| !in_window(p.ts, lo, hi)),
            removed == old(self)@.len() - final(self)@.len(),
    {
        proof {
            use_type_invariant(&self.cols);
        }
        if lo > hi {
            proof {
                lemma_filter_all(self@, |p: TsPoint<T>| !in_window(p.ts, lo, hi));
            }
            return 0;
        }
        let r = self.retain_window(lo, hi, false);
        assert(self@ =~= old(self)@.filter(|p: TsPoint<T>| !in_window(p.ts, lo, hi))) by {
            assert((|p: TsPoint<T>| in_window(p.ts, lo, hi) == false) =~= (|p: TsPoint<T>|
                !in_window(p.ts, lo, hi)));
        }
        r
    }

    /// Remove every point whose value equals `target`. The kept points are
    /// exactly those whose value differs from `target` under `T`'s `==`
    /// specification, where `T` has one.
    pub fn delete_by_value(&mut self, target: &T) -> (removed: usize)
        where
            T: PartialEq,
        ensures
            final(self).spec_meta() == old(self).spec_meta(),
            T::obeys_eq_spec() ==> final(self)@ == old(self)@.filter(
                |p: TsPoint<T>| !p.value.eq_spec(target),
            ),
            removed == old(self)@.len() - final(self)@.len(),
    {
        proof {
            use_type_invariant(&self.cols);
        }
        let n = self.cols.ts.len();
        let mut flags: Vec<bool> = Vec::with_capacity(n);
        for i in 0..n
            invariant
                n == self@.len(),
                self.wf(),
                flags@.len() == i,
                T::obeys_eq_spec() ==> forall|k: int|
                    0 <= k < i ==> flags@[k] == !self@[k].value.eq_spec(target),
        {
            let keep = self.cols.val[i] != *target;
            flags.push(keep);
        }
        proof {
            if T::obeys_eq_spec() {
                lemma_keep_by_filter(self@, flags@, |p: TsPoint<T>| !p.value.eq_spec(target));
            }
        }
        self.retain_flags(&flags)
    }

    /// Remove every point whose value is in `[lo, hi]` (kept: `v < lo` or
    /// `v > hi` under `T`'s order specification, where `T` has one).
    pub fn delete_value_range(&mut self, lo: &T, hi: &T) -> (removed: usize)
        where
            T: PartialOrd,
        ensures
            final(self).spec_meta() == old(self).spec_meta(),
            T::obeys_partial_cmp_spec() ==> final(self)@ == old(self)@.filter(
                |p: TsPoint<T>|
                    p.value.partial_cmp_spec(lo) == Some(core::cmp::Ordering::Less)
                        || p.value.partial_cmp_spec(hi) == Some(core::cmp::Ordering::Greater),
            ),
            removed == old(self)@.len() - final(self)@.len(),
    {
        proof {
            use_type_invariant(&self.cols);
        }
        let n = self.cols.ts.len();
        let mut flags: Vec<bool> = Vec::with_capacity(n);
        for i in 0..n
            invariant
                n == self@.len(),
                self.wf(),
                flags@.len() == i,
                T::obeys_partial_cmp_spec() ==> forall|k: int|
                    0 <= k < i ==> flags@[k] == (self@[k].value.partial_cmp_spec(lo) == Some(
                        core::cmp::Ordering::Less,
                    ) || self@[k].value.partial_cmp_spec(hi) == Some(
                        core::cmp::Ordering::Greater,
                    )),
        {
            let v = &self.cols.val[i];
            let keep = v < lo || v > hi;
            flags.push(keep);
        }
        proof {
            if T::obeys_partial_cmp_spec() {
                lemma_keep_by_filter(
                    self@,
                    flags@,
                    |p: TsPoint<T>|
                        p.value.partial_cmp_spec(lo) == Some(core::cmp::Ordering::Less)
                            || p.value.partial_cmp_spec(hi) == Some(core::cmp::Ordering::Greater),
                );
            }
        }
        self.retain_flags(&flags)
    }

    /// Remove every point not satisfying `keep`. Returns the count removed.
    /// `keep` is shown a copy of each point (its value cloned); the point is
    /// kept exactly when `keep` answered `true` for it.
    pub fn retain<F: Fn(&TsPoint<T>) -> bool>(&mut self, keep: F) -> (removed: usize)
        requires
            forall|p: TsPoint<T>| keep.requires((&p,)),
        ensures
            final(self).spec_meta() == old(self).spec_meta(),
            exists|shown: Seq<TsPoint<T>>, flags: Seq<bool>|
                points_cloned(old(self)@, shown) && flags.len() == old(self)@.len() && (forall|i: int|
                    0 <= i < flags.len() ==> keep.ensures((&shown[i],), #[trigger] flags[i]))
                    && final(self)@ == keep_by(old(self)@, flags),
            removed == old(self)@.len() - final(self)@.len(),
    {
        proof {
            use_type_invariant(&self.cols);
        }
        let n = self.cols.ts.len();
        let mut flags: Vec<bool> = Vec::with_capacity(n);
        let ghost mut shown: Seq<TsPoint<T>> = Seq::empty();
        for i in 0..n
            invariant
                n == self@.len(),
                self.wf(),
                flags@.len() == i,
                shown.len() == i,
                forall|p: TsPoint<T>| keep.requires((&p,)),
                forall|k: int| 0 <= k < i ==> point_cloned(self@[k], #[trigger] shown[k]),
                forall|k: int| 0 <= k < i ==> keep.ensures((&shown[k],), #[trigger] flags@[k]),
        {
            let p = self.point(i);
            let b = keep(&p);
            flags.push(b);
            proof {
                shown = shown.push(p);
            }
        }
        let ghost f = flags@;
        let r = self.retain_flags(&flags);
        assert(points_cloned(old(self)@, shown) && f.len() == old(self)@.len() && (forall|i: int|
            0 <= i < f.len() ==> keep.ensures((&shown[i],), #[trigger] f[i])));
        r
    }

    /// Drop points before `cutoff` (keep ts >= cutoff). Returns count removed.
    pub fn truncate_before(&mut self, cutoff: i64) -> (removed: usize)
        ensures
            final(self).spec_meta() == old(self).spec_meta(),
            final(self)@ == old(self)@.filter(|p: TsPoint<T>| p.ts >= cutoff),
            removed == old(self)@.len() - final(self)@.len(),
    {
        proof {
            use_type_invariant(&self.cols);
        }
        let r = self.retain_window(cutoff, i64::MAX, true);
        assert((|p: TsPoint<T>| in_window(p.ts, cutoff, i64::MAX) == true) =~= (|p: TsPoint<T>|
            p.ts >= cutoff));
        r
    }

    /// Drop points after `cutoff` (keep ts <= cutoff). Returns count removed.
    pub fn truncate_after(&mut self, cutoff: i64) -> (removed: usize)
        ensures
            final(self).spec_meta() == old(self).spec_meta(),
            final(self)@ == old(self)@.filter(|p: TsPoint<T>| p.ts <= cutoff),
            removed == old(self)@.len() - final(self)@.len(),
    {
        proof {
            use_type_invariant(&self.cols);
        }
        let r = self.retain_window(i64::MIN, cutoff, true);
        assert((|p: TsPoint<T>| in_window(p.ts, i64::MIN, cutoff) == true) =~= (|p: TsPoint<T>|
            p.ts <= cutoff));
        r
    }

    /// Keep only the newest `cap` points (all of them when there are no more
    /// than `cap`). Returns the count removed.
    pub(crate) fn keep_newest(&mut self, cap: usize) -> (removed: usize)
        ensures
            final(self).spec_meta() == old(self).spec_meta(),
            final(self)@ == if old(self)@.len() > cap {
                old(self)@.skip(old(self)@.len() - cap)
            } else {
                old(self)@
            },
            removed == old(self)@.len() - final(self)@.len(),
    {
        proof {
            use_type_invariant(&self.cols);
        }
        let n = self.cols.ts.len();
        if n <= cap {
            return 0;
        }
        let drop_before = n - cap;
        let mut flags: Vec<bool> = Vec::with_capacity(n);
        for i in 0..n
            invariant
                flags@.len() == i,
                forall|k: int| 0 <= k < i ==> flags@[k] == (k >= drop_before),
        {
            flags.push(i >= drop_before);
        }
        proof {
            lemma_keep_by_suffix(self@, flags@, drop_before as int);
        }
        self.retain_flags(&flags)
    }

    /// Remove + return the first point.
    pub fn pop_first(&mut self) -> (r: Option<TsPoint<T>>)
        ensures
            final(self).spec_meta() == old(self).spec_meta(),
            r == if old(self)@.len() == 0 {
                None
            } else {
                Some(old(self)@[0])
            },
            final(self)@ == if old(self)@.len() == 0 {
                old(self)@
            } else {
                old(self)@.drop_first()
            },
    {
        proof {
            use_type_invariant(&self.cols);
        }
        if self.cols.ts.len() == 0 {
            return None;
        }
        let ghost before = self@;
        let Columns { ts: mut cts, val: mut cval } = self.take_cols();
        let ghost bts = cts@;
        let ts = cts.remove(0);
        let value = cval.remove(0);
        assert(cts@ =~= bts.remove(0));
        let c = Columns { ts: cts, val: cval };
        assert(c.points() =~= before.drop_first());
        self.put_cols(c);
        Some(TsPoint { ts, value })
    }

    /// Remove + return the last point.
    pub fn pop_last(&mut self) -> (r: Option<TsPoint<T>>)
        ensures
            final(self).spec_meta() == old(self).spec_meta(),
            r == if old(self)@.len() == 0 {
                None
            } else {
                Some(old(self)@.last())
            },
            final(self)@ == if old(self)@.len() == 0 {
                old(self)@
            } else {
                old(self)@.drop_last()
            },
    {
        proof {
            use_type_invariant(&self.cols);
        }
        let n = self.cols.ts.len();
        if n == 0 {
            return None;
        }
        let ghost before = self@;
        let Columns { ts: mut cts, val: mut cval } = self.take_cols();
        let ts = cts.pop().unwrap();
        let value = cval.pop().unwrap();
        assert(sorted_i64(cts@));
        let c = Columns { ts: cts, val: cval };
        assert(c.points() =~= before.drop_last());
        self.put_cols(c);
        Some(TsPoint { ts, value })
    }

    /// Remove every point.
    pub fn clear(&mut self)
        ensures
            final(self).spec_meta() == old(self).spec_meta(),
            final(self)@ == Seq::<TsPoint<T>>::empty(),
    {
        proof {
            use_type_invariant(&self.cols);
        }
        let _ = self.take_cols();
    }

}

impl<T: TsNumeric> TsSeries<T> {
    proof fn lemma_values_step(&self, start: int, i: int)
        requires
            self.wf(),
            0 <= start <= i < self@.len(),
        ensures
            values_of(self@.subrange(start, i + 1)).drop_last() == values_of(
                self@.subrange(start, i),
            ),
            values_of(self@.subrange(start, i + 1)).last() == self@[i].value,
            values_of(self@.subrange(start, i + 1)).len() == i + 1 - start,
    {
        assert(values_of(self@.subrange(start, i + 1)).drop_last() =~= values_of(
            self@.subrange(start, i),
        ));
    }

    fn min_span(&self, start: usize, end: usize) -> (r: Option<T>)
        requires
            self.wf(),
            start <= end <= self@.len(),
        ensures
            r == fold_min(values_of(self@.subrange(start as int, end as int))),
    {
        let mut best: Option<T> = None;
        let mut i = start;
        assert(values_of(self@.subrange(start as int, start as int)) =~= Seq::<T>::empty());
        while i < end
            invariant
                self.wf(),
                start <= i <= end <= self@.len(),
                best == fold_min(values_of(self@.subrange(start as int, i as int))),
            decreases end - i,
        {
            proof {
                self.lemma_values_step(start as int, i as int);
            }
            let v = self.cols.val[i];
            best = match best {
                None => Some(v),
                Some(m) => if v.ts_lt(m) {
                    Some(v)
                } else {
                    Some(m)
                },
            };
            i = i + 1;
        }
        best
    }

    fn max_span(&self, start: usize, end: usize) -> (r: Option<T>)
        requires
            self.wf(),
            start <= end <= self@.len(),
        ensures
            r == fold_max(values_of(self@.subrange(start as int, end as int))),
    {
        let mut best: Option<T> = None;
        let mut i = start;
        assert(values_of(self@.subrange(start as int, start as int)) =~= Seq::<T>::empty());
        while i < end
            invariant
                self.wf(),
                start <= i <= end <= self@.len(),
                best == fold_max(values_of(self@.subrange(start as int, i as int))),
            decreases end - i,
        {
            proof {
                self.lemma_values_step(start as int, i as int);
            }
            let v = self.cols.val[i];
            best = match best {
                None => Some(v),
                Some(m) => if m.ts_lt(v) {
                    Some(v)
                } else {
                    Some(m)
                },
            };
            i = i + 1;
        }
        best
    }

    fn sum_span(&self, start: usize, end: usize) -> (r: T)
        requires
            self.wf(),
            start <= end <= self@.len(),
        ensures
            r == span_sum(values_of(self@.subrange(start as int, end as int))),
    {
        let mut acc = T::ts_zero();
        let mut i = start;
        assert(values_of(self@.subrange(start as int, start as int)) =~= Seq::<T>::empty());
        while i < end
            invariant
                self.wf(),
                start <= i <= end <= self@.len(),
                acc == fold_sum(values_of(self@.subrange(start as int, i as int))),
            decreases end - i,
        {
            proof {
                self.lemma_values_step(start as int, i as int);
            }
            acc = acc.ts_add(self.cols.val[i]);
            i = i + 1;
        }
        if start == end {
            acc
        } else {
            T::ts_zero().ts_add(acc)
        }
    }

    proof fn lemma_full_span(&self)
        requires
            self.wf(),
        ensures
            self@.subrange(0, self@.len() as int) == self@,
    {
        assert(self@.subrange(0, self@.len() as int) =~= self@);
    }

    /// Smallest value (the first of equal minima), `None` when empty.
    pub fn min(&self) -> (r: Option<T>)
        ensures
            r == fold_min(values_of(self@)),
    {
        proof {
            use_type_invariant(&self.cols);
        }
        proof {
            self.lemma_full_span();
        }
        self.min_span(0, self.cols.ts.len())
    }

    /// Largest value (the first of equal maxima), `None` when empty.
    pub fn max(&self) -> (r: Option<T>)
        ensures
            r == fold_max(values_of(self@)),
    {
        proof {
            use_type_invariant(&self.cols);
        }
        proof {
            self.lemma_full_span();
        }
        self.max_span(0, self.cols.ts.len())
    }

    /// Sum of every value (the zero when empty).
    pub fn sum(&self) -> (r: T)
        ensures
            r == span_sum(values_of(self@)),
    {
        proof {
            use_type_invariant(&self.cols);
        }
        proof {
            self.lemma_full_span();
        }
        self.sum_span(0, self.cols.ts.len())
    }

    /// The first point holding the smallest value.
    pub fn min_point(&self) -> (r: Option<TsPoint<T>>)
        ensures
            r == if self@.len() == 0 {
                None
            } else {
                Some(self@[argmin(self@)])
            },
    {
        proof {
            use_type_invariant(&self.cols);
        }
        let n = self.cols.ts.len();
        if n == 0 {
            return None;
        }
        let mut best: usize = 0;
        for i in 1..n
            invariant
                n == self@.len(),
                self.wf(),
                1 <= i <= n,
                best == argmin(self@.take(i as int)),
                best < i,
        {
            proof {
                assert(self@.take(i + 1).drop_last() =~= self@.take(i as int));
                lemma_argmin_bound(self@.take(i as int));
            }
            if self.cols.val[i].ts_lt(self.cols.val[best]) {
                best = i;
            }
        }
        proof {
            assert(self@.take(n as int) =~= self@);
        }
        Some(TsPoint { ts: self.cols.ts[best], value: self.cols.val[best] })
    }

    /// The first point holding the largest value.
    pub fn max_point(&self) -> (r: Option<TsPoint<T>>)
        ensures
            r == if self@.len() == 0 {
                None
            } else {
                Some(self@[argmax(self@)])
            },
    {
        proof {
            use_type_invariant(&self.cols);
        }
        let n = self.cols.ts.len();
        if n == 0 {
            return None;
        }
        let mut best: usize = 0;
        for i in 1..n
            invariant
                n == self@.len(),
                self.wf(),
                1 <= i <= n,
                best == argmax(self@.take(i as int)),
                best < i,
        {
            proof {
                assert(self@.take(i + 1).drop_last() =~= self@.take(i as int));
                lemma_argmax_bound(self@.take(i as int));
            }
            if self.cols.val[best].ts_lt(self.cols.val[i]) {
                best = i;
            }
        }
        proof {
            assert(self@.take(n as int) =~= self@);
        }
        Some(TsPoint { ts: self.cols.ts[best], value: self.cols.val[best] })
    }

    /// Smallest value among the points in `[lo, hi]`.
    pub fn range_min(&self, lo: i64, hi: i64) -> (r: Option<T>)
        ensures
            r == fold_min(values_of(window_points(self@, lo, hi))),
    {
        proof {
            use_type_invariant(&self.cols);
        }
        let (start, end) = self.span_bounds(lo, hi);
        self.min_span(start, end)
    }

    /// Largest value among the points in `[lo, hi]`.
    pub fn range_max(&self, lo: i64, hi: i64) -> (r: Option<T>)
        ensures
            r == fold_max(values_of(window_points(self@, lo, hi))),
    {
        proof {
            use_type_invariant(&self.cols);
        }
        let (start, end) = self.span_bounds(lo, hi);
        self.max_span(start, end)
    }

    /// Sum of the values of the points in `[lo, hi]`.
    pub fn range_sum(&self, lo: i64, hi: i64) -> (r: T)
        ensures
            r == span_sum(values_of(window_points(self@, lo, hi))),
    {
        proof {
            use_type_invariant(&self.cols);
        }
        let (start, end) = self.span_bounds(lo, hi);
        self.sum_span(start, end)
    }
}

proof fn lemma_argmin_bound<T: TsNumeric>(s: Seq<TsPoint<T>>)
    requires
        s.len() >= 1,
    ensures
        0 <= argmin(s) < s.len(),
    decreases s.len(),
{
    if s.len() > 1 {
        lemma_argmin_bound(s.drop_last());
    }
}

proof fn lemma_argmax_bound<T: TsNumeric>(s: Seq<TsPoint<T>>)
    requires
        s.len() >= 1,
    ensures
        0 <= argmax(s) < s.len(),
    decreases s.len(),
{
    if s.len() > 1 {
        lemma_argmax_bound(s.drop_last());
    }
}

proof fn lemma_filter_all<A>(s: Seq<A>, pred: spec_fn(A) -> bool)
    requires
        forall|i: int| 0 <= i < s.len() ==> pred(s[i]),
    ensures
        s.filter(pred) == s,
    decreases s.len(),
{
    reveal(Seq::filter);
    if s.len() > 0 {
        lemma_filter_all(s.drop_last(), pred);
        assert(s.drop_last().push(s.last()) =~= s);
    }
}

proof fn lemma_window_empty<T>(s: Seq<TsPoint<T>>, lo: i64, hi: i64)
    requires
        lo > hi,
    ensures
        window_points(s, lo, hi) == Seq::<TsPoint<T>>::empty(),
    decreases s.len(),
{
    reveal(Seq::filter);
    if s.len() > 0 {
        lemma_window_empty(s.drop_last(), lo, hi);
    }
}

/// On a sorted sequence the window is the contiguous slice between the
/// first index with `ts >= lo` and the first index with `ts > hi`.
proof fn lemma_window_is_slice<T>(s: Seq<TsPoint<T>>, lo: i64, hi: i64, start: int, end: int)
    requires
        ts_sorted(s),
        lo <= hi,
        0 <= start <= s.len(),
        0 <= end <= s.len(),
        forall|i: int| 0 <= i < start ==> s[i].ts < lo,
        forall|i: int| start <= i < s.len() ==> s[i].ts >= lo,
        forall|i: int| 0 <= i < end ==> s[i].ts <= hi,
        forall|i: int| end <= i < s.len() ==> s[i].ts > hi,
    ensures
        start <= end,
        window_points(s, lo, hi) == s.subrange(start, end),
    decreases s.len(),
{
    reveal(Seq::filter);
    if start > end {
        assert(s[end].ts > hi);
        assert(s[end].ts < lo);
    }
    if s.len() > 0 {
        let n = s.len() - 1;
        let t = s.drop_last();
        assert(ts_sorted(t));
        if end == s.len() {
            if start == s.len() {
                lemma_window_is_slice(t, lo, hi, n, n);
                assert(s.subrange(start, end) =~= Seq::<TsPoint<T>>::empty());
                assert(t.subrange(n, n) =~= Seq::<TsPoint<T>>::empty());
            } else {
                lemma_window_is_slice(t, lo, hi, start, n);
                assert(s.subrange(start, end) =~= t.subrange(start, n).push(s.last()));
            }
        } else {
            lemma_window_is_slice(t, lo, hi, if start > n { n } else { start }, end);
            assert(s.subrange(start, end) =~= t.subrange(start, end));
        }
    }
}

/// `|a - b|` on timestamps, as an integer.
pub open spec fn dist(a: i64, b: i64) -> int {
    if a >= b {
        a - b
    } else {
        b - a
    }
}

/// The points of an inclusive time range, in time order.
pub struct TsRange<T> {
    points: Vec<TsPoint<T>>,
}

impl<T> View for TsRange<T> {
    type V = Seq<TsPoint<T>>;

    closed spec fn view(&self) -> Seq<TsPoint<T>> {
        self.points@
    }
}

impl<T> TsRange<T> {
    pub fn len(&self) -> (n: usize)
        ensures
            n == self@.len(),
    {
        self.points.len()
    }

    pub fn is_empty(&self) -> (b: bool)
        ensures
            b == (self@.len() == 0),
    {
        self.points.len() == 0
    }

    /// The points, in time order.
    pub fn points(&self) -> (s: &[TsPoint<T>])
        ensures
            s@ == self@,
    {
        self.points.as_slice()
    }

    /// The points, in time order, as an owned vector.
    pub fn into_vec(self) -> (v: Vec<TsPoint<T>>)
        ensures
            v@ == self@,
    {
        self.points
    }
}

/// Every stored value is a present observation.
pub open spec fn values_present<T: TsValueKind>(s: Seq<TsPoint<T>>) -> bool {
    forall|i: int| 0 <= i < s.len() ==> (#[trigger] s[i]).value.spec_is_present()
}

/// Points taken from a run of present values are present.
proof fn lemma_present_from<T: TsValueKind>(old: Seq<TsPoint<T>>, new: Seq<TsPoint<T>>)
    requires
        values_present(old),
        forall|i: int| 0 <= i < new.len() ==> old.contains(#[trigger] new[i]),
    ensures
        values_present(new),
{
    assert forall|i: int| 0 <= i < new.len() implies (#[trigger] new[i]).value.spec_is_present() by {
        assert(old.contains(new[i]));
        let j = choose|j: int| 0 <= j < old.len() && old[j] == new[i];
        assert(old[j].value.spec_is_present());
    }
}

/// Every point of `keep_by(s, flags)` is a point of `s`.
proof fn lemma_keep_by_from<A>(s: Seq<A>, flags: Seq<bool>)
    ensures
        forall|i: int| 0 <= i < keep_by(s, flags).len() ==> s.contains(#[trigger] keep_by(s, flags)[i]),
    decreases s.len(),
{
    if s.len() > 0 && flags.len() > 0 {
        lemma_keep_by_from(s.drop_last(), flags.drop_last());
        let rest = keep_by(s.drop_last(), flags.drop_last());
        assert forall|i: int| 0 <= i < keep_by(s, flags).len() implies s.contains(#[trigger] keep_by(s, flags)[i]) by {
            if i < rest.len() {
                assert(keep_by(s, flags)[i] == rest[i]);
                assert(s.drop_last().contains(rest[i]));
                let j = choose|j: int| 0 <= j < s.drop_last().len() && s.drop_last()[j] == rest[i];
                assert(s[j] == rest[i]);
            } else {
                assert(keep_by(s, flags)[i] == s[s.len() - 1]);
            }
        }
    }
}

/// A series never holds a missing observation: `push` and `from_points`
/// refuse them, and every other change keeps a subset of the points it had
/// (`delete_*`, `retain` and `truncate_*` filter or keep by flags,
/// `delete_at` and `pop_*` remove one, `clear` empties). So when the points
/// before a change are all present, so are the points after it.
pub proof fn lemma_changes_keep_values_present<T: TsValueKind>(
    old: Seq<TsPoint<T>>,
    new: Seq<TsPoint<T>>,
    ts: i64,
    value: T,
    r: Result<(), TsError>,
    pred: spec_fn(TsPoint<T>) -> bool,
    flags: Seq<bool>,
    i: int,
)
    requires
        values_present(old),
    ensures
        push_result(old, new, ts, value, r) ==> values_present(new),
        values_present(old.filter(pred)),
        values_present(keep_by(old, flags)),
        0 <= i < old.len() ==> values_present(old.remove(i)),
        old.len() > 0 ==> values_present(old.drop_first()) && values_present(old.drop_last()),
        values_present(Seq::<TsPoint<T>>::empty()),
{
    if push_result(old, new, ts, value, r) {
        if r is Ok {
            assert forall|k: int| 0 <= k < new.len() implies (#[trigger] new[k]).value.spec_is_present() by {
                if k < old.len() {
                    assert(new[k] == old[k]);
                }
            }
        }
    }
    let f = old.filter(pred);
    assert forall|k: int| 0 <= k < f.len() implies old.contains(#[trigger] f[k]) by {
        assert(f.contains(f[k]));
        old.lemma_filter_contains_rev(pred, f[k]);
    }
    lemma_present_from(old, f);
    lemma_keep_by_from(old, flags);
    lemma_present_from(old, keep_by(old, flags));
    if 0 <= i < old.len() {
        let rm = old.remove(i);
        assert forall|k: int| 0 <= k < rm.len() implies old.contains(#[trigger] rm[k]) by {
            if k < i {
                assert(rm[k] == old[k]);
            } else {
                assert(rm[k] == old[k + 1]);
            }
        }
        lemma_present_from(old, rm);
    }
    if old.len() > 0 {
        assert forall|k: int| 0 <= k < old.drop_first().len() implies (#[trigger] old.drop_first()[k]).value.spec_is_present() by {
            assert(old.drop_first()[k] == old[k + 1]);
        }
        assert forall|k: int| 0 <= k < old.drop_last().len() implies (#[trigger] old.drop_last()[k]).value.spec_is_present() by {
            assert(old.drop_last()[k] == old[k]);
        }
    }
}

/// `first` and `iter` read the same stored point: when the value type's
/// clone copies exactly, `first` is the head of what `iter` yields, and
/// `None` exactly when `iter` yields nothing.
pub proof fn lemma_first_is_iter_head<T: Clone>(
    s: Seq<TsPoint<T>>,
    first: Option<TsPoint<T>>,
    all: Seq<TsPoint<T>>,
)
    requires
        opt_point_cloned(
            if s.len() == 0 {
                None
            } else {
                Some(s[0])
            },
            first,
        ),
        points_cloned(s, all),
        forall|a: T, b: T| #[trigger] cloned(a, b) ==> a == b,
    ensures
        first == if all.len() == 0 {
            None
        } else {
            Some(all[0])
        },
{
    if s.len() > 0 {
        assert(point_cloned(s[0], all[0]));
    }
}

} // verus!
