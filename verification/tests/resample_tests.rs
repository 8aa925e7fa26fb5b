use subms_ts::codec::scale_timestamps;
use subms_ts::resample::try_resample_buckets;
use subms_ts::{resample_buckets, TsBucket, TsPoint, TsSeries};

fn series(ts: &[i64]) -> TsSeries<i64> {
    let mut s = TsSeries::new();
    for (i, t) in ts.iter().enumerate() {
        s.push(*t, i as i64).unwrap();
    }
    s
}

#[test]
fn buckets_group_runs_by_aligned_start() {
    let s = series(&[0, 3, 11, 12, 35]);
    let b = resample_buckets(&s, 10);
    assert_eq!(
        b,
        vec![
            TsBucket { start: 0, from: 0, to: 2 },
            TsBucket { start: 10, from: 2, to: 4 },
            TsBucket { start: 30, from: 4, to: 5 },
        ]
    );
}

#[test]
fn buckets_round_negative_stamps_down() {
    let s = series(&[-11, -10, -1, 0]);
    let starts: Vec<i64> = resample_buckets(&s, 10).iter().map(|b| b.start).collect();
    assert_eq!(starts, vec![-20, -10, 0]);
}

#[test]
fn buckets_empty_and_bad_period() {
    assert!(resample_buckets(&series(&[]), 10).is_empty());
    assert!(resample_buckets(&series(&[1, 2]), 0).is_empty());
    assert!(resample_buckets(&series(&[1, 2]), -5).is_empty());
    assert_eq!(resample_buckets(&series(&[7]), 5), vec![TsBucket { start: 5, from: 0, to: 1 }]);
}

#[test]
fn bucket_starts_strictly_increase() {
    let s = series(&[1, 1, 2, 9, 10, 10, 25, 26, 99]);
    let b = resample_buckets(&s, 5);
    for w in b.windows(2) {
        assert!(w[0].start < w[1].start);
        assert_eq!(w[0].to, w[1].from);
    }
}

#[test]
fn timestamp_scaling_checks_overflow() {
    assert_eq!(scale_timestamps(&vec![1, -2, 3], 1_000_000), Some(vec![1_000_000, -2_000_000, 3_000_000]));
    assert_eq!(scale_timestamps(&vec![i64::MAX / 2 + 1], 2), None);
    assert_eq!(scale_timestamps(&vec![], 7), Some(vec![]));
}

#[test]
fn instants_from_nanoseconds() {
    let p = TsPoint::at_nanos(Some(42), 1u32);
    assert_eq!((p.ts, p.value), (42, 1));
    assert_eq!(TsPoint::at_nanos(None, 2u32).ts, 0);
    let mut s = TsSeries::<i64>::new();
    s.push_nanos(Some(5), 1).unwrap();
    s.push_nanos(Some(9), 2).unwrap();
    assert!(s.push_nanos(None, 3).is_err()); // lands at the epoch, before the tail
    assert_eq!(s.range_nanos(None, Some(6)).len(), 1);
    assert_eq!(s.range_nanos(Some(6), None).len(), 1);
    assert_eq!(s.nearest_nanos(Some(8)).map(|p| p.ts), Some(9));
    assert_eq!(s.nearest_nanos(None).map(|p| p.ts), Some(5));
}

#[test]
fn bucket_start_below_the_range_is_refused() {
    let low = series(&[i64::MIN + 1, 0]);
    assert_eq!(try_resample_buckets(&low, 10), None);
    let fits = series(&[i64::MIN, 5]);
    assert_eq!(
        try_resample_buckets(&fits, 8),
        Some(vec![
            TsBucket { start: i64::MIN, from: 0, to: 1 },
            TsBucket { start: 0, from: 1, to: 2 },
        ])
    );
    assert_eq!(try_resample_buckets(&low, 0), Some(Vec::new()));
}
