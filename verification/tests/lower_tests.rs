use subms_ts::sql::{parse, TsSqlError};

fn cols(names: &[&str]) -> Vec<String> {
    names.iter().map(|n| n.to_string()).collect()
}

#[test]
fn validate_accepts_known_columns_and_order_by_alias() {
    let stmt = parse("SELECT a, b + c AS s FROM t WHERE d > 1 ORDER BY s DESC").unwrap();
    assert_eq!(stmt.validate_columns(&cols(&["a", "b", "c", "d"])), Ok(()));
    assert!(stmt.is_output_alias("s"));
    assert!(stmt.is_output_alias("a"));
    assert!(!stmt.is_output_alias("b"));
}

#[test]
fn validate_reports_first_unknown_in_check_order() {
    let known = cols(&["a", "b"]);
    let stmt = parse("SELECT a, zz FROM t WHERE q = 1").unwrap();
    assert_eq!(
        stmt.validate_columns(&known),
        Err(TsSqlError::UnknownColumn("zz".to_string()))
    );
    let stmt = parse("SELECT a FROM t WHERE q = 1 OR b > 2").unwrap();
    assert_eq!(
        stmt.validate_columns(&known),
        Err(TsSqlError::UnknownColumn("q".to_string()))
    );
    let stmt = parse("SELECT SUM(a) AS total FROM t GROUP BY g").unwrap();
    assert_eq!(
        stmt.validate_columns(&known),
        Err(TsSqlError::UnknownColumn("g".to_string()))
    );
    let stmt = parse("SELECT a FROM t ORDER BY w").unwrap();
    assert_eq!(
        stmt.validate_columns(&known),
        Err(TsSqlError::UnknownColumn("w".to_string()))
    );
    let stmt = parse("SELECT CASE WHEN a > 0 THEN b ELSE k END AS v FROM t").unwrap();
    assert_eq!(
        stmt.validate_columns(&known),
        Err(TsSqlError::UnknownColumn("k".to_string()))
    );
}

#[test]
fn star_and_count_star_read_no_columns() {
    let stmt = parse("SELECT *, COUNT(*) AS n FROM t").unwrap();
    assert_eq!(stmt.validate_columns(&cols(&[])), Ok(()));
    assert!(stmt.projection_has_aggregate());
    let stmt = parse("SELECT a, b FROM t").unwrap();
    assert!(!stmt.projection_has_aggregate());
}

#[test]
fn rowwise_output_names_expand_star_without_repeats() {
    let source = cols(&["a", "b", "c"]);
    let stmt = parse("SELECT a, *, b AS a FROM t").unwrap();
    assert_eq!(stmt.rowwise_output_names(&source), cols(&["a", "b", "c"]));
    let stmt = parse("SELECT b + c AS s, a FROM t").unwrap();
    assert_eq!(stmt.rowwise_output_names(&source), cols(&["s", "a"]));
    let stmt = parse("SELECT * FROM t").unwrap();
    assert_eq!(stmt.rowwise_output_names(&source), source);
}

#[test]
fn aggregate_queries_are_grouped_or_aggregating() {
    assert!(parse("SELECT a FROM t GROUP BY a").unwrap().is_aggregate_query());
    assert!(parse("SELECT MAX(a) AS m FROM t").unwrap().is_aggregate_query());
    assert!(!parse("SELECT a, b * 2 AS d FROM t").unwrap().is_aggregate_query());
}

#[test]
fn aggregate_projection_rules() {
    let ok = parse("SELECT sym, SUM(qty) AS total FROM t GROUP BY sym").unwrap();
    assert_eq!(ok.check_aggregate_projection(), Ok(()));
    let star = parse("SELECT *, COUNT(*) AS n FROM t GROUP BY sym").unwrap();
    assert_eq!(
        star.check_aggregate_projection(),
        Err(TsSqlError::Type("SELECT * is not allowed with GROUP BY / aggregates".to_string()))
    );
    let bare = parse("SELECT px, SUM(qty) AS total FROM t GROUP BY sym").unwrap();
    assert_eq!(
        bare.check_aggregate_projection(),
        Err(TsSqlError::Type("column px must appear in GROUP BY or an aggregate".to_string()))
    );
    let computed = parse("SELECT px * 2 AS d, SUM(qty) AS total FROM t GROUP BY px").unwrap();
    assert_eq!(
        computed.check_aggregate_projection(),
        Err(TsSqlError::Type("a non-aggregate projection must be a GROUP BY key column".to_string()))
    );
}
