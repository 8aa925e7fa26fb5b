use subms_ts::collection::fold_values;
use subms_ts::promql::parse;
use subms_ts::vector::{
    binary_shape, group_key, group_plan, labels_lt, output_labels, probe_instant, range_steps,
    range_window, same_labels, select_series, vector_pairs, TsBinaryShape, METRIC_LABEL,
};
use subms_ts::{Grouping, Selector, TsCollection, TsPromQlError, TsSeriesMetadata, TsTags};
use subms_ts::promql::Expr;

fn tags(pairs: &[(&str, &str)]) -> TsTags {
    let mut t = TsTags::new();
    for (k, v) in pairs {
        t.insert((*k).to_string(), (*v).to_string());
    }
    t
}

// Three series sharing one metric through the reserved label, registered
// out of id order.
fn fixture() -> TsCollection<i64> {
    let mut coll = TsCollection::<i64>::new();
    for (id, job, inst) in [(3u64, "web", "i-3"), (1, "api", "i-1"), (2, "api", "i-2")] {
        let meta = TsSeriesMetadata::new(id, "")
            .with_tag(METRIC_LABEL, "http_requests_total")
            .with_tag("job", job)
            .with_tag("instance", inst);
        coll.register(meta).unwrap();
        coll.push(id, 0, 0).unwrap();
        coll.push(id, 60, id as i64 * 10).unwrap();
    }
    let other = TsSeriesMetadata::new(9, "cpu").with_tag("job", "api");
    coll.register(other).unwrap();
    coll.push(9, 100, 5).unwrap();
    coll
}

fn selector_of(q: &str) -> subms_ts::Selector {
    match parse(q).unwrap() {
        Expr::Selector(s) => s,
        other => panic!("unexpected {other:?}"),
    }
}

#[test]
fn range_steps_cover_window() {
    assert_eq!(range_steps(0, 120, 60).unwrap(), vec![0, 60, 120]);
    assert_eq!(range_steps(0, 119, 60).unwrap(), vec![0, 60]);
    assert_eq!(range_steps(5, 5, 1).unwrap(), vec![5]);
    assert_eq!(range_steps(i64::MAX - 1, i64::MAX, 5).unwrap(), vec![i64::MAX - 1]);
    assert!(matches!(range_steps(0, 10, 0), Err(TsPromQlError::Eval(_))));
    assert!(matches!(range_steps(10, 0, 1), Err(TsPromQlError::Eval(_))));
}

#[test]
fn select_orders_by_id_and_applies_matchers() {
    let coll = fixture();
    let ids = |q: &str| -> Vec<u64> {
        let all = coll.series();
        select_series(&coll, &selector_of(q))
            .into_iter()
            .map(|i| all[i].metadata().unwrap().id)
            .collect()
    };
    assert_eq!(ids("http_requests_total"), vec![1, 2, 3]);
    assert_eq!(ids("http_requests_total{job=\"web\"}"), vec![3]);
    assert_eq!(ids("http_requests_total{job!=\"web\"}"), vec![1, 2]);
    assert_eq!(ids("http_requests_total{instance=~\"i-.*2\"}"), vec![2]);
    assert_eq!(ids("http_requests_total{job!~\"a.*\"}"), vec![3]);
    // without the reserved label the metadata name is the metric
    assert_eq!(ids("cpu"), vec![9]);
    assert!(ids("unknown_metric").is_empty());
}

#[test]
fn output_labels_drop_metric_label() {
    let t = tags(&[("__name__", "m"), ("job", "api")]);
    let o = output_labels(&t);
    assert_eq!(o.len(), 1);
    assert_eq!(o.get("job").map(|s| s.as_str()), Some("api"));
    assert!(o.get("__name__").is_none());
}

#[test]
fn group_key_by_without_all() {
    let t = tags(&[("job", "api"), ("instance", "i-1"), ("zone", "a")]);
    let by = group_key(&t, &Grouping::By(vec!["job".to_string(), "missing".to_string()]));
    assert!(same_labels(&by, &tags(&[("job", "api")])));
    let without = group_key(&t, &Grouping::Without(vec!["instance".to_string()]));
    assert!(same_labels(&without, &tags(&[("job", "api"), ("zone", "a")])));
    let all = group_key(&t, &Grouping::All);
    assert!(all.is_empty());
}

#[test]
fn group_plan_sorts_groups_and_keeps_input_order() {
    let keys = vec![
        tags(&[("job", "web")]),
        tags(&[("job", "api")]),
        tags(&[("job", "web")]),
        tags(&[]),
        tags(&[("job", "api")]),
    ];
    let groups = group_plan(&keys);
    assert_eq!(groups.len(), 3);
    // empty label set first, then api, then web
    assert!(groups[0].labels.is_empty());
    assert_eq!(groups[0].members, vec![3]);
    assert!(same_labels(&groups[1].labels, &tags(&[("job", "api")])));
    assert_eq!(groups[1].members, vec![1, 4]);
    assert!(same_labels(&groups[2].labels, &tags(&[("job", "web")])));
    assert_eq!(groups[2].members, vec![0, 2]);
}

#[test]
fn labels_order_is_lexicographic() {
    assert!(labels_lt(&tags(&[]), &tags(&[("a", "1")])));
    assert!(labels_lt(&tags(&[("a", "1")]), &tags(&[("a", "2")])));
    assert!(labels_lt(&tags(&[("a", "9")]), &tags(&[("b", "0")])));
    assert!(labels_lt(&tags(&[("a", "1")]), &tags(&[("a", "1"), ("b", "0")])));
    assert!(!labels_lt(&tags(&[("a", "1")]), &tags(&[("a", "1")])));
}

#[test]
fn vector_pairs_match_full_label_sets() {
    let l = vec![tags(&[("job", "api")]), tags(&[("job", "web")]), tags(&[("job", "db")])];
    let r = vec![tags(&[("job", "web")]), tags(&[("job", "api")]), tags(&[("job", "web")])];
    // web pairs with the last matching right sample; db has no partner
    assert_eq!(vector_pairs(&l, &r), vec![(0, 1), (1, 2)]);
}

#[test]
fn values_at_and_fold() {
    let coll = fixture();
    // at 60 every http series has its second point; cpu has none yet
    let vals = coll.values_at(60);
    assert_eq!(vals.len(), 3);
    let f = fold_values(&vals).unwrap();
    assert_eq!(f.count, 3);
    assert_eq!(f.sum, 60);
    assert_eq!(f.min, 10);
    assert_eq!(f.max, 30);
    assert_eq!(coll.values_at_by_tag("job", "api", 1000), vec![10, 20, 5]);
    assert!(coll.values_at(-1).is_empty());
    assert!(fold_values::<i64>(&vec![]).is_none());
}

#[test]
fn offset_moves_the_probe_and_the_window() {
    let sel = Selector { metric: "m".to_string(), matchers: Vec::new(), offset_ns: 30 };
    assert_eq!(probe_instant(&sel, 100), 70);
    assert_eq!(range_window(&sel, 50, 100), (20, 70));
    let far = Selector { metric: "m".to_string(), matchers: Vec::new(), offset_ns: i64::MAX };
    assert_eq!(probe_instant(&far, -10), i64::MIN);
    assert_eq!(range_window(&far, 5, -10), (i64::MIN, i64::MIN));
}

#[test]
fn binary_shape_by_label_sets() {
    let scalar = vec![TsTags::new()];
    let a = tags(&[("job", "a")]);
    let b = tags(&[("job", "b")]);
    assert!(matches!(binary_shape(&scalar, &scalar), TsBinaryShape::BothScalar));
    assert!(matches!(binary_shape(&scalar, &vec![a.clone()]), TsBinaryShape::LeftScalar));
    assert!(matches!(binary_shape(&vec![a.clone(), b.clone()], &scalar), TsBinaryShape::RightScalar));
    match binary_shape(&vec![a.clone(), b.clone()], &vec![b.clone(), a.clone()]) {
        TsBinaryShape::Matched(p) => assert_eq!(p, vec![(0, 1), (1, 0)]),
        _ => panic!("two labelled vectors pair up"),
    }
    // Two empty vectors are vectors, not scalars, and pair nothing.
    match binary_shape(&Vec::new(), &Vec::new()) {
        TsBinaryShape::Matched(p) => assert!(p.is_empty()),
        _ => panic!("empty vectors are not scalars"),
    }
}
