use subms_ts::{TsError, TsNumeric, TsPoint, TsSeries, TsSeriesMetadata, TsValueKind};

/// An `f64` observation: present when finite, ordered and summed as a float.
#[derive(Copy, Clone, Debug, PartialEq, PartialOrd)]
struct F(f64);

impl TsValueKind for F {
    fn spec_is_present(&self) -> bool {
        self.0.is_finite()
    }
    fn ts_is_present(&self) -> bool {
        self.0.is_finite()
    }
}

impl TsNumeric for F {
    fn num_zero() -> Self {
        F(0.0)
    }
    fn num_add(self, other: Self) -> Self {
        F(self.0 + other.0)
    }
    fn num_lt(self, other: Self) -> bool {
        self.0 < other.0
    }
    fn ts_zero() -> Self {
        F(0.0)
    }
    fn ts_add(self, other: Self) -> Self {
        F(self.0 + other.0)
    }
    fn ts_lt(self, other: Self) -> bool {
        self.0 < other.0
    }
}

fn seeded(points: &[(i64, f64)]) -> TsSeries<F> {
    let mut s = TsSeries::new();
    for &(ts, v) in points {
        s.push(ts, F(v)).unwrap();
    }
    s
}

#[test]
fn push_and_len() {
    let s = seeded(&[(1, 1.0), (2, 2.0), (3, 3.0)]);
    assert_eq!(s.len(), 3);
    assert!(!s.is_empty());
    assert_eq!(s.first().unwrap(), TsPoint::new(1, F(1.0)));
    assert_eq!(s.last().unwrap(), TsPoint::new(3, F(3.0)));
}

#[test]
fn push_rejects_out_of_order() {
    let mut s = TsSeries::<F>::new();
    s.push(10, F(1.0)).unwrap();
    assert_eq!(
        s.push(5, F(2.0)),
        Err(TsError::NotMonotonic { last: 10, got: 5 })
    );
    // equal ts is allowed (non-decreasing)
    assert!(s.push(10, F(3.0)).is_ok());
}

#[test]
fn push_rejects_nan_and_inf() {
    let mut s = TsSeries::<F>::new();
    assert!(matches!(
        s.push(1, F(f64::NAN)),
        Err(TsError::NullValue { .. })
    ));
    assert!(matches!(
        s.push(1, F(f64::INFINITY)),
        Err(TsError::NullValue { .. })
    ));
    assert_eq!(s.len(), 0);
}

#[test]
fn get_at_exact_and_miss() {
    let s = seeded(&[(1, 1.0), (3, 3.0), (5, 5.0)]);
    assert_eq!(s.get_at(3).unwrap().value, F(3.0));
    assert_eq!(s.get_at(4), None);
    assert_eq!(s.get_at(0), None);
    assert_eq!(s.get_at(6), None);
}

#[test]
fn nearest_before_after_and_nearest() {
    let s = seeded(&[(10, 1.0), (20, 2.0), (30, 3.0)]);
    assert_eq!(s.nearest_before(25).unwrap().ts, 20);
    assert_eq!(s.nearest_before(10).unwrap().ts, 10);
    assert_eq!(s.nearest_before(5), None);
    assert_eq!(s.nearest_after(25).unwrap().ts, 30);
    assert_eq!(s.nearest_after(30).unwrap().ts, 30);
    assert_eq!(s.nearest_after(31), None);
    assert_eq!(s.nearest(24).unwrap().ts, 20);
    assert_eq!(s.nearest(26).unwrap().ts, 30);
    // tie resolves to the earlier
    assert_eq!(s.nearest(25).unwrap().ts, 20);
}

#[test]
fn range_inclusive_bounds_and_empty() {
    let s = seeded(&[(1, 1.0), (2, 2.0), (3, 3.0), (4, 4.0)]);
    let got: Vec<i64> = s.range(2, 3).into_vec().iter().map(|p| p.ts).collect();
    assert_eq!(got, vec![2, 3]);
    assert_eq!(s.range(5, 9).len(), 0);
    assert_eq!(s.range(3, 1).len(), 0); // lo > hi
    assert_eq!(s.range(0, 100).len(), 4);
}

#[test]
fn delete_at_and_range() {
    let mut s = seeded(&[(1, 1.0), (2, 2.0), (3, 3.0), (4, 4.0)]);
    assert_eq!(s.delete_at(2).unwrap().value, F(2.0));
    assert_eq!(s.len(), 3);
    assert_eq!(s.get_at(2), None);
    assert_eq!(s.delete_range(3, 4), 2);
    assert_eq!(s.len(), 1);
    assert_eq!(s.first().unwrap().ts, 1);
    assert_eq!(s.last().unwrap().ts, 1);
}

#[test]
fn delete_by_value_and_value_range() {
    let mut s = seeded(&[(1, 5.0), (2, 1.0), (3, 5.0), (4, 9.0)]);
    assert_eq!(s.delete_by_value(&F(5.0)), 2);
    assert_eq!(s.len(), 2);
    let mut s2 = seeded(&[(1, 1.0), (2, 4.0), (3, 7.0), (4, 10.0)]);
    assert_eq!(s2.delete_value_range(&F(4.0), &F(7.0)), 2);
    assert_eq!(
        s2.iter().iter().map(|p| p.value).collect::<Vec<_>>(),
        vec![F(1.0), F(10.0)]
    );
}

#[test]
fn truncate_retain_pop_clear() {
    let mut s = seeded(&[(1, 1.0), (2, 2.0), (3, 3.0), (4, 4.0), (5, 5.0)]);
    assert_eq!(s.truncate_before(3), 2);
    assert_eq!(s.first().unwrap().ts, 3);
    assert_eq!(s.truncate_after(4), 1);
    assert_eq!(s.last().unwrap().ts, 4);
    assert_eq!(s.retain(|p| p.value != F(3.0)), 1);
    assert_eq!(s.len(), 1);
    assert_eq!(s.pop_first().unwrap().ts, 4);
    assert!(s.is_empty());
    let mut s2 = seeded(&[(1, 1.0), (2, 2.0)]);
    assert_eq!(s2.pop_last().unwrap().ts, 2);
    s2.clear();
    assert!(s2.is_empty());
}

#[test]
fn from_points_validates() {
    let ok = TsSeries::from_points(vec![TsPoint::new(1, F(1.0)), TsPoint::new(2, F(2.0))]);
    assert!(ok.is_ok());
    let bad = TsSeries::from_points(vec![TsPoint::new(2, F(1.0)), TsPoint::new(1, F(2.0))]);
    assert!(matches!(bad, Err(TsError::NotMonotonic { .. })));
}

#[test]
fn seal_boundary_is_transparent() {
    let n = 70_000i64;
    let mut s = TsSeries::<i64>::new();
    for i in 0..n {
        s.push(i, i).unwrap();
    }
    assert_eq!(s.len() as i64, n);
    assert_eq!(s.first().unwrap().ts, 0);
    assert_eq!(s.last().unwrap().ts, n - 1);
    assert_eq!(s.get_at(100).unwrap().value, 100);
    assert_eq!(s.get_at(69_000).unwrap().value, 69_000);
    let span: Vec<i64> = s
        .range(65_530, 65_540)
        .into_vec()
        .iter()
        .map(|p| p.ts)
        .collect();
    assert_eq!(span, (65_530..=65_540).collect::<Vec<_>>());
    assert_eq!(s.nearest_before(65_536).unwrap().ts, 65_536);
    assert_eq!(s.max(), Some(n - 1));
    assert_eq!(s.range_sum(0, 9), 45);
}

#[test]
fn delete_across_seal_boundary_rechunks() {
    let mut s = TsSeries::<i64>::new();
    for i in 0..70_000i64 {
        s.push(i, i).unwrap();
    }
    let removed = s.delete_range(0, 50_000);
    assert_eq!(removed, 50_001);
    assert_eq!(s.len(), 70_000 - 50_001);
    assert_eq!(s.first().unwrap().ts, 50_001);
    assert_eq!(s.last().unwrap().ts, 69_999);
    assert_eq!(s.get_at(60_000).unwrap().value, 60_000);
}

#[test]
fn aggregates_short_series() {
    let s = seeded(&[(1, 5.0), (2, -3.0), (3, 7.5)]);
    assert_eq!(s.min().unwrap(), F(-3.0));
    assert_eq!(s.max().unwrap(), F(7.5));
    assert!((s.sum().0 - 9.5).abs() < 1e-12);
}

// Own checks of the library's contracts on concrete values.

#[test]
fn min_max_point_keep_the_first_of_ties() {
    let s = seeded(&[(1, 2.0), (2, 1.0), (3, 1.0), (4, 9.0), (5, 9.0)]);
    assert_eq!(s.min_point().unwrap().ts, 2);
    assert_eq!(s.max_point().unwrap().ts, 4);
    assert_eq!(s.range_min(3, 5), Some(F(1.0)));
    assert_eq!(s.range_max(1, 3), Some(F(2.0)));
    assert_eq!(s.range_sum(4, 5), F(18.0));
    assert_eq!(s.range_min(6, 9), None);
}

#[test]
fn duplicate_timestamps_resolve_first_and_last() {
    let s = seeded(&[(1, 1.0), (2, 2.0), (2, 3.0), (4, 4.0)]);
    // get_at / nearest_after pick the first point at a timestamp,
    // nearest_before the last.
    assert_eq!(s.get_at(2).unwrap().value, F(2.0));
    assert_eq!(s.nearest_after(2).unwrap().value, F(2.0));
    assert_eq!(s.nearest_before(2).unwrap().value, F(3.0));
    assert_eq!(s.nearest_before(3).unwrap().value, F(3.0));
}

#[test]
fn i64_sum_wraps() {
    let mut s = TsSeries::<i64>::new();
    s.push(1, i64::MAX).unwrap();
    s.push(2, 1).unwrap();
    assert_eq!(s.sum(), i64::MIN);
}

#[test]
fn string_series_reads_clone_and_deletes_move() {
    let mut s = TsSeries::<String>::new();
    s.push(1, "AAPL".to_string()).unwrap();
    s.push(2, "MSFT".to_string()).unwrap();
    s.push(3, "AAPL".to_string()).unwrap();
    assert_eq!(s.len(), 3);
    assert_eq!(s.get_at(2).map(|p| p.value), Some("MSFT".to_string()));
    assert_eq!(s.nearest_before(2).map(|p| p.value), Some("MSFT".to_string()));
    assert_eq!(s.first().map(|p| p.value), Some("AAPL".to_string()));
    let copy = s.clone();
    assert_eq!(copy.iter(), s.iter());
    let got: Vec<String> = s.range(2, 3).into_vec().into_iter().map(|p| p.value).collect();
    assert_eq!(got, vec!["MSFT".to_string(), "AAPL".to_string()]);
    assert_eq!(s.delete_by_value(&"AAPL".to_string()), 2);
    assert_eq!(s.iter(), vec![TsPoint::new(2, "MSFT".to_string())]);
    assert_eq!(copy.len(), 3);
    assert_eq!(s.pop_last(), Some(TsPoint::new(2, "MSFT".to_string())));
    assert!(s.is_empty());
}

/// A non-`Copy` value: a run of leg sizes.
#[derive(Clone, Debug, PartialEq)]
struct Legs(Vec<i64>);

impl TsValueKind for Legs {
    fn spec_is_present(&self) -> bool {
        true
    }
    fn ts_is_present(&self) -> bool {
        true
    }
}

#[test]
fn vector_valued_series_retain_sees_copies() {
    let mut s = TsSeries::<Legs>::new();
    s.push(10, Legs(vec![1, 2])).unwrap();
    s.push(20, Legs(vec![3])).unwrap();
    s.push(30, Legs(vec![])).unwrap();
    let removed = s.retain(|p| !p.value.0.is_empty());
    assert_eq!(removed, 1);
    assert_eq!(s.last(), Some(TsPoint::new(20, Legs(vec![3]))));
    assert_eq!(s.truncate_before(15), 1);
    assert_eq!(s.iter(), vec![TsPoint::new(20, Legs(vec![3]))]);
}

#[test]
fn built_series_have_no_metadata_and_clones_keep_it() {
    let s = TsSeries::from_points(vec![TsPoint::new(1, 5i64), TsPoint::new(2, 6)]).unwrap();
    assert!(s.metadata().is_none());
    let tagged = s.clone().with_metadata(TsSeriesMetadata::new(7, "px").with_tag("venue", "x"));
    let copy = tagged.clone();
    assert_eq!(copy.metadata(), tagged.metadata());
    assert_eq!(copy.iter(), tagged.iter());
}
