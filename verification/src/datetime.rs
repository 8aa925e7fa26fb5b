//! Calendar access: the core stores `i64` nanoseconds, and a calendar
//! instant enters as the nanoseconds it stands for, `None` when it lies
//! outside the `i64` range. A missing instant defaults to the epoch, or
//! opens the side of a window it bounds.

use vstd::prelude::*;

use crate::point::{point_cloned, points_cloned, TsPoint};
use crate::series::{dist, push_result, window_points, TsRange, TsSeries};
use crate::{TsError, TsValueKind};

verus! {

/// The nanoseconds an instant stands for, or `default` when it has none.
pub open spec fn nanos_or(nanos: Option<i64>, default: i64) -> i64 {
    match nanos {
        Some(n) => n,
        None => default,
    }
}

fn nanos_or_exec(nanos: Option<i64>, default: i64) -> (r: i64)
    ensures
        r == nanos_or(nanos, default),
{
    match nanos {
        Some(n) => n,
        None => default,
    }
}

impl<T> TsPoint<T> {
    /// A point at the instant `nanos` (the epoch when there is none).
    pub fn at_nanos(nanos: Option<i64>, value: T) -> (p: Self)
        ensures
            p.ts == nanos_or(nanos, 0),
            p.value == value,
    {
        TsPoint { ts: nanos_or_exec(nanos, 0), value }
    }
}

impl<T: Clone> TsSeries<T> {
    /// [`TsSeries::push`] at the instant `nanos` (the epoch when there is
    /// none).
    pub fn push_nanos(&mut self, nanos: Option<i64>, value: T) -> (r: Result<(), TsError>)
        where
            T: TsValueKind,
        ensures
            final(self).spec_meta() == old(self).spec_meta(),
            push_result(old(self)@, final(self)@, nanos_or(nanos, 0), value, r),
    {
        self.push(nanos_or_exec(nanos, 0), value)
    }

    /// [`TsSeries::range`] between two instants; a missing one opens that
    /// side of the window.
    pub fn range_nanos(&self, lo: Option<i64>, hi: Option<i64>) -> (r: TsRange<T>)
        ensures
            points_cloned(window_points(self@, nanos_or(lo, i64::MIN), nanos_or(hi, i64::MAX)), r@),
    {
        self.range(nanos_or_exec(lo, i64::MIN), nanos_or_exec(hi, i64::MAX))
    }

    /// [`TsSeries::nearest`] to the instant `nanos` (the epoch when there is
    /// none).
    pub fn nearest_nanos(&self, nanos: Option<i64>) -> (r: Option<TsPoint<T>>)
        ensures
            (r is None) <==> self@.len() == 0,
            r matches Some(p) ==> exists|i: int| 0 <= i < self@.len() && point_cloned(self@[i], p),
            r matches Some(p) ==> forall|i: int|
                0 <= i < self@.len() ==> dist(p.ts, nanos_or(nanos, 0)) <= dist(
                    #[trigger] self@[i].ts,
                    nanos_or(nanos, 0),
                ),
    {
        self.nearest(nanos_or_exec(nanos, 0))
    }
}

} // verus!
