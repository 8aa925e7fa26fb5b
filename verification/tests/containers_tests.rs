use subms_ts::{
    TsAttrs, TsCollection, TsCollectionError, TsPanel, TsPanelGroup, TsPanelMetadata,
    TsRetentionPolicy, TsSeries, TsSeriesMetadata, TsTags, TsValueKind,
};

/// An `f64` observation: present when finite.
#[derive(Copy, Clone, Debug, PartialEq, PartialOrd)]
struct F(f64);

impl TsValueKind for F {
    fn spec_is_present(&self) -> bool {
        self.0.is_finite()
    }
    fn ts_is_present(&self) -> bool {
        self.0.is_finite()
    }
}

// ---------- metadata ----------

#[test]
fn attrs_normalise_and_reject_non_ascii() {
    let mut a = TsAttrs::new();
    a.insert("  Bar-Interval ", "  1M ").unwrap();
    assert_eq!(a.get("bar-interval"), Some("1m"));
    assert_eq!(a.get("BAR-INTERVAL"), Some("1m")); // query is normalised too
    assert!(a.matches("Bar-Interval", "1m"));
    assert!(a.insert("naïve", "x").is_err()); // non-ASCII key rejected
}

#[test]
fn metadata_builder_and_tag_match() {
    let m = TsSeriesMetadata::new(7, "close.aapl")
        .with_tag("symbol", "aapl")
        .with_tag("field", "close");
    assert_eq!(m.id, 7);
    let mut want = TsTags::new();
    want.insert("symbol".to_string(), "aapl".to_string());
    assert!(m.has_tags(&want));
}

#[test]
fn has_tags_rejects_a_different_value() {
    let m = TsSeriesMetadata::new(7, "close.aapl").with_tag("symbol", "aapl");
    let mut want = TsTags::new();
    want.insert("symbol".to_string(), "msft".to_string());
    assert!(!m.has_tags(&want));
    assert!(m.has_tags(&TsTags::new()));
}

// ---------- collection ----------

#[test]
fn collection_register_push_lookup() {
    let mut c: TsCollection<F> = TsCollection::new();
    let id = c
        .register(TsSeriesMetadata::new(1, "cpu").with_tag("host", "a"))
        .unwrap();
    c.push(id, 10, F(0.5)).unwrap();
    c.push(id, 20, F(0.7)).unwrap();
    assert_eq!(c.len(), 1);
    assert_eq!(c.by_name("cpu").unwrap().len(), 2);
    assert_eq!(c.by_tag("host", "a").len(), 1);
    assert_eq!(c.by_tag("host", "z").len(), 0);
    assert!(matches!(
        c.register(TsSeriesMetadata::new(1, "dup")),
        Err(TsCollectionError::DuplicateId(1))
    ));
    assert!(c.push(99, 1, F(1.0)).is_err());
}

#[test]
fn collection_delete_and_evict_by_tag() {
    let mut c: TsCollection<F> = TsCollection::new();
    for (id, env) in [(1u64, "prod"), (2, "prod"), (3, "dev")] {
        c.register(TsSeriesMetadata::new(id, format!("s{id}")).with_tag("env", env))
            .unwrap();
        c.push(id, 1, F(1.0)).unwrap();
    }
    assert_eq!(c.delete_range_by_tag("env", "prod", 0, 10), 2);
    let evicted = c.evict_by_tag("env", "prod");
    assert_eq!(evicted.len(), 2);
    assert_eq!(c.len(), 1);
}

#[test]
fn collection_duplicate_name_and_errors() {
    let mut c: TsCollection<i64> = TsCollection::new();
    c.register(TsSeriesMetadata::new(1, "cpu")).unwrap();
    assert_eq!(
        c.register(TsSeriesMetadata::new(2, "cpu")),
        Err(TsCollectionError::DuplicateName("cpu".to_string()))
    );
    // an empty name is never indexed, so it never clashes
    assert_eq!(c.register(TsSeriesMetadata::new(3, "")), Ok(3));
    assert_eq!(c.register(TsSeriesMetadata::new(4, "")), Ok(4));
    assert_eq!(c.push(7, 1, 1), Err(TsCollectionError::UnknownId(7)));
    c.push(1, 10, 5).unwrap();
    assert!(matches!(
        c.push(1, 5, 6),
        Err(TsCollectionError::Ingest(subms_ts::TsError::NotMonotonic { last: 10, got: 5 }))
    ));
    assert_eq!(c.ids(), vec![1, 3, 4]);
    assert!(c.contains(3));
    assert!(!c.contains(2));
}

#[test]
fn collection_deregister_frees_the_name() {
    let mut c: TsCollection<i64> = TsCollection::new();
    c.register(TsSeriesMetadata::new(1, "cpu")).unwrap();
    let s = c.deregister(1).unwrap();
    assert_eq!(s.metadata().unwrap().name, "cpu");
    assert!(c.by_name("cpu").is_none());
    assert!(c.deregister(1).is_none());
    // the name can be reused now
    assert_eq!(c.register(TsSeriesMetadata::new(2, "cpu")), Ok(2));
    assert_eq!(c.by_name("cpu").unwrap().metadata().unwrap().id, 2);
}

#[test]
fn collection_truncate_and_delete_at() {
    let mut c: TsCollection<i64> = TsCollection::new();
    for id in 1..=3u64 {
        c.register(TsSeriesMetadata::new(id, format!("s{id}")).with_tag("k", "v"))
            .unwrap();
        for t in 0..10 {
            c.push(id, t, t).unwrap();
        }
    }
    assert_eq!(c.truncate_before(5), 15);
    assert_eq!(c.truncate_after(7), 6);
    assert_eq!(c.get(1).unwrap().len(), 3);
    assert_eq!(c.delete_at(2, 6).map(|p| p.value), Some(6));
    assert_eq!(c.delete_at(2, 6), None);
    assert_eq!(c.delete_at(9, 6), None);
    assert_eq!(c.delete_at_by_tag("k", "v", 5), 3);
    assert_eq!(c.delete_at_by_tag("k", "v", 6), 2);
    assert_eq!(c.delete_range(1, 0, 100), 1);
    assert_eq!(c.delete_range(42, 0, 100), 0);
    assert_eq!(c.series().iter().map(|s| s.len()).sum::<usize>(), 2);
}

#[test]
fn collection_evict_where_and_clear() {
    let mut c: TsCollection<i64> = TsCollection::new();
    for id in 1..=4u64 {
        c.register(TsSeriesMetadata::new(id, format!("s{id}"))).unwrap();
    }
    let gone = c.evict_where(|m| m.id % 2 == 0);
    assert_eq!(
        gone.iter().map(|s| s.metadata().unwrap().id).collect::<Vec<_>>(),
        vec![2, 4]
    );
    assert_eq!(c.ids(), vec![1, 3]);
    assert!(c.by_name("s2").is_none());
    assert!(c.by_name("s3").is_some());
    c.clear();
    assert!(c.is_empty());
    assert!(c.by_name("s1").is_none());
}

#[test]
fn collection_get_mut_changes_only_that_series() {
    let mut c: TsCollection<i64> = TsCollection::new();
    c.register(TsSeriesMetadata::new(1, "a")).unwrap();
    c.register(TsSeriesMetadata::new(2, "b")).unwrap();
    c.get_mut(2).unwrap().push(3, 30).unwrap();
    assert_eq!(c.get(1).unwrap().len(), 0);
    assert_eq!(c.get(2).unwrap().len(), 1);
    assert!(c.get_mut(3).is_none());
}

// ---------- panel (homogeneous) ----------

#[test]
fn panel_slots_groups_and_aligned() {
    let mut f: TsPanel<F> = TsPanel::new(TsPanelMetadata::new("ohlcv.aapl.1m"));
    let mut open = TsSeries::new();
    let mut close = TsSeries::new();
    open.push(1, F(10.0)).unwrap();
    open.push(3, F(12.0)).unwrap();
    close.push(1, F(10.5)).unwrap();
    close.push(2, F(11.0)).unwrap();
    f.add_series("open", open);
    f.add_series("close", close);
    f.add_group(TsPanelGroup {
        name: "price".into(),
        series_names: vec!["open".into(), "close".into()],
    });

    assert_eq!(f.len(), 2);
    assert_eq!(f.slot_names(), vec!["open", "close"]);
    assert_eq!(f.series_in_group("price").len(), 2);

    // aligned rows in ts order; None where a slot has no point at that ts
    let mut aligned = f.aligned();
    let mut rows: Vec<(i64, Vec<Option<F>>)> = Vec::new();
    while let Some(row) = aligned.next() {
        rows.push(row);
    }
    assert_eq!(
        rows,
        vec![
            (1, vec![Some(F(10.0)), Some(F(10.5))]),
            (2, vec![None, Some(F(11.0))]),
            (3, vec![Some(F(12.0)), None]),
        ]
    );
}

#[test]
fn panel_delete_and_drop() {
    let mut f: TsPanel<F> = TsPanel::new(TsPanelMetadata::new("f"));
    let mut a = TsSeries::new();
    a.push(1, F(1.0)).unwrap();
    a.push(2, F(2.0)).unwrap();
    f.add_series("a", a);
    assert_eq!(f.delete_range("a", 1, 1), 1);
    assert_eq!(f.series("a").unwrap().len(), 1);
    assert!(f.drop("a").is_some());
    assert!(f.is_empty());
}

#[test]
fn panel_add_series_replaces_in_place() {
    let mut f: TsPanel<i64> = TsPanel::new(TsPanelMetadata::new("p"));
    f.add_series("a", TsSeries::new());
    f.add_series("b", TsSeries::new());
    let mut s = TsSeries::new();
    s.push(1, 9).unwrap();
    f.add_series("a", s);
    assert_eq!(f.slot_names(), vec!["a", "b"]);
    assert_eq!(f.series("a").unwrap().len(), 1);
    assert!(f.series("zz").is_none());
}

#[test]
fn panel_aligned_repeats_equal_stamps_in_order() {
    let mut f: TsPanel<i64> = TsPanel::new(TsPanelMetadata::new("p"));
    let mut a = TsSeries::new();
    a.push(5, 1).unwrap();
    a.push(5, 2).unwrap();
    f.add_series("a", a);
    f.add_series("empty", TsSeries::new());
    let mut it = f.aligned();
    assert_eq!(it.next(), Some((5, vec![Some(1), None])));
    assert_eq!(it.next(), Some((5, vec![Some(2), None])));
    assert_eq!(it.next(), None);
    assert_eq!(it.next(), None);
}

#[test]
fn panel_groups_retain_and_truncate() {
    let mut f: TsPanel<i64> = TsPanel::new(TsPanelMetadata::new("p"));
    for name in ["a", "b", "c"] {
        let mut s = TsSeries::new();
        for t in 0..4 {
            s.push(t, t).unwrap();
        }
        f.add_series(name, s);
    }
    f.add_group(TsPanelGroup { name: "g".into(), series_names: vec!["c".into(), "a".into()] });
    let members: Vec<&str> = f.series_in_group("g").iter().map(|e| e.0).collect();
    assert_eq!(members, vec!["a", "c"]); // slot order, not group order
    assert!(f.series_in_group("nope").is_empty());
    assert_eq!(f.truncate_before(1), 3);
    assert_eq!(f.truncate_after(2), 3);
    assert_eq!(f.delete_at("b", 2).map(|p| p.ts), Some(2));
    assert_eq!(f.retain_slots(|name, _| name != "b"), 1);
    assert_eq!(f.slot_names(), vec!["a", "c"]);
    assert!(f.remove_group("g").is_some());
    assert!(f.group("g").is_none());
    f.clear();
    assert!(f.is_empty());
    assert_eq!(f.metadata().name, "p");
}

#[test]
fn retention_on_collection_series() {
    let mut c: TsCollection<i64> = TsCollection::new();
    c.register(TsSeriesMetadata::new(1, "a")).unwrap();
    for t in 0..10 {
        c.push(1, t, t).unwrap();
    }
    let removed = TsRetentionPolicy::new().max_points(4).apply(c.get_mut(1).unwrap());
    assert_eq!(removed, 6);
    assert_eq!(c.get(1).unwrap().first().unwrap().ts, 6);
}
