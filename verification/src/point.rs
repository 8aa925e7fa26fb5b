//! A single observation: an `i64`-nanosecond timestamp paired with a value.

use vstd::prelude::*;

verus! {

/// A single observation: an `i64`-nanosecond timestamp paired with a value.
#[derive(Copy, Clone, Debug, PartialEq)]
pub struct TsPoint<T> {
    pub ts: i64,
    pub value: T,
}

/// `b` is a copy of `a` as `T::clone` makes one: the same stamp, and a value
/// that is a clone of `a`'s.
pub open spec fn point_cloned<T: Clone>(a: TsPoint<T>, b: TsPoint<T>) -> bool {
    b.ts == a.ts && cloned(a.value, b.value)
}

/// `b` is `a` copied point by point.
pub open spec fn points_cloned<T: Clone>(a: Seq<TsPoint<T>>, b: Seq<TsPoint<T>>) -> bool {
    &&& b.len() == a.len()
    &&& forall|i: int| 0 <= i < a.len() ==> #[trigger] point_cloned(a[i], b[i])
}

/// `b` is `a` with each value cloned.
pub open spec fn values_cloned<T: Clone>(a: Seq<T>, b: Seq<T>) -> bool {
    &&& b.len() == a.len()
    &&& forall|i: int| 0 <= i < a.len() ==> cloned(a[i], #[trigger] b[i])
}

/// `b` is `a` copied, `None` for `None`.
pub open spec fn opt_point_cloned<T: Clone>(a: Option<TsPoint<T>>, b: Option<TsPoint<T>>) -> bool {
    match (a, b) {
        (Some(x), Some(y)) => point_cloned(x, y),
        (None, None) => true,
        _ => false,
    }
}

impl<T> TsPoint<T> {
    pub fn new(ts: i64, value: T) -> (p: Self)
        ensures
            p.ts == ts,
            p.value == value,
    {
        TsPoint { ts, value }
    }
}

} // verus!
