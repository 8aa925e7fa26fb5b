use subms_ts::promql::{parse, tokenize, Expr, TokKind};
use subms_ts::{
    parse_duration_ns, simple_re_match, AggOp, BinOp, FuncKind, Grouping, LabelMatcher, MatchOp,
    TsPromQlError,
};

fn matcher(op: MatchOp, pattern: &str) -> LabelMatcher {
    LabelMatcher { label: "job".to_string(), op, pattern: pattern.to_string() }
}

#[test]
fn pattern_is_anchored_with_dotstar_wildcards() {
    assert!(simple_re_match("a.*", "api"));
    assert!(simple_re_match("i-.*2", "i-2"));
    assert!(simple_re_match("i-.*2", "i-12"));
    assert!(!simple_re_match("i-.*2", "i-21"));
    assert!(simple_re_match(".*", ""));
    assert!(simple_re_match("a.*b.*c", "axxbyyc"));
    assert!(!simple_re_match("a.*b.*c", "axxcyyb"));
    assert!(!simple_re_match("ab.*b", "ab"));
    // `.` alone is a literal dot
    assert!(simple_re_match("a.c", "a.c"));
    assert!(!simple_re_match("a.c", "abc"));
    assert!(simple_re_match("web", "web"));
    assert!(!simple_re_match("web", "webx"));
}

#[test]
fn matcher_ops() {
    assert!(matcher(MatchOp::Eq, "web").matches(Some("web")));
    assert!(!matcher(MatchOp::Eq, "web").matches(None));
    assert!(matcher(MatchOp::Ne, "web").matches(Some("api")));
    assert!(matcher(MatchOp::Ne, "web").matches(None));
    assert!(matcher(MatchOp::Re, "a.*").matches(Some("api")));
    assert!(!matcher(MatchOp::Re, "a.*").matches(None));
    assert!(!matcher(MatchOp::Nre, "a.*").matches(Some("api")));
    assert!(matcher(MatchOp::Nre, "a.*").matches(Some("web")));
    assert!(matcher(MatchOp::Nre, "a.*").matches(None));
}

#[test]
fn duration_literals_parse() {
    assert_eq!(parse_duration_ns("5m"), Ok(300_000_000_000));
    assert_eq!(parse_duration_ns("1h30m"), Ok(5_400_000_000_000));
    assert_eq!(parse_duration_ns("90s"), Ok(90_000_000_000));
    assert_eq!(parse_duration_ns("2d"), Ok(172_800_000_000_000));
    assert_eq!(parse_duration_ns(""), Ok(0));
}

#[test]
fn duration_errors() {
    for bad in ["m", "5", "5x", "5m3", "99999999999999999999s", "106752d"] {
        assert!(
            matches!(parse_duration_ns(bad), Err(TsPromQlError::Parse(_))),
            "{bad} should not parse"
        );
    }
    // the largest whole-day duration that fits
    assert_eq!(parse_duration_ns("106751d"), Ok(106_751 * 86_400_000_000_000));
}

#[test]
fn parse_error_on_malformed_query() {
    for bad in ["sum by (job (http_requests_total)", "http_requests_total{job=}", ""] {
        assert!(matches!(parse(bad), Err(TsPromQlError::Parse(_))), "{bad:?} should not parse");
    }
}

#[test]
fn parse_rejects_trailing_and_unbalanced_input() {
    for bad in [
        "http_requests_total http_requests_total",
        "(http_requests_total",
        "rate(http_requests_total)",
        "rate(http_requests_total[5x])",
        "http_requests_total offset",
        "sum by job (x)",
        "1 +",
        "1e",
        "{job=\"a\"}",
    ] {
        assert!(matches!(parse(bad), Err(TsPromQlError::Parse(_))), "{bad:?} should not parse");
    }
}

#[test]
fn parse_selector_with_matchers_and_offset() {
    let e = parse("http_requests_total{job=\"web\", instance=~\"i-.*\"} offset 1m").unwrap();
    match e {
        Expr::Selector(sel) => {
            assert_eq!(sel.metric, "http_requests_total");
            assert_eq!(sel.matchers.len(), 2);
            assert_eq!(sel.matchers[0].label, "job");
            assert_eq!(sel.matchers[0].op, MatchOp::Eq);
            assert_eq!(sel.matchers[0].pattern, "web");
            assert_eq!(sel.matchers[1].label, "instance");
            assert_eq!(sel.matchers[1].op, MatchOp::Re);
            assert_eq!(sel.matchers[1].pattern, "i-.*");
            assert_eq!(sel.offset_ns, 60_000_000_000);
        }
        other => panic!("unexpected {other:?}"),
    }
}

#[test]
fn parse_range_function() {
    let e = parse("rate(http_requests_total{instance=\"i-1\"}[1h])").unwrap();
    match e {
        Expr::Func { kind, selector, range_ns } => {
            assert_eq!(kind, FuncKind::Rate);
            assert_eq!(selector.metric, "http_requests_total");
            assert_eq!(selector.matchers.len(), 1);
            assert_eq!(range_ns, 3_600_000_000_000);
            assert_eq!(selector.offset_ns, 0);
        }
        other => panic!("unexpected {other:?}"),
    }
}

#[test]
fn parse_aggregation_grouping_before_or_after() {
    for q in ["sum by (job) (http_requests_total)", "sum (http_requests_total) by (job)"] {
        match parse(q).unwrap() {
            Expr::Agg { op, grouping, inner } => {
                assert_eq!(op, AggOp::Sum);
                assert!(matches!(grouping, Grouping::By(ref ls) if ls == &vec!["job".to_string()]));
                assert!(matches!(*inner, Expr::Selector(_)));
            }
            other => panic!("unexpected {other:?}"),
        }
    }
    match parse("count without (instance, job) (x)").unwrap() {
        Expr::Agg { op, grouping, .. } => {
            assert_eq!(op, AggOp::Count);
            assert!(matches!(grouping, Grouping::Without(ref ls) if ls.len() == 2));
        }
        other => panic!("unexpected {other:?}"),
    }
    match parse("max(x)").unwrap() {
        Expr::Agg { grouping, .. } => assert!(matches!(grouping, Grouping::All)),
        other => panic!("unexpected {other:?}"),
    }
}

#[test]
fn parse_binary_precedence_and_left_association() {
    // a - b - c * d  ==  (a - b) - (c * d)
    match parse("a - b - c * 2.5").unwrap() {
        Expr::Binary { op: BinOp::Sub, lhs, rhs } => {
            assert!(matches!(*lhs, Expr::Binary { op: BinOp::Sub, .. }));
            match *rhs {
                Expr::Binary { op: BinOp::Mul, rhs: r2, .. } => {
                    assert!(matches!(*r2, Expr::Scalar(ref t) if t == "2.5"));
                }
                other => panic!("unexpected {other:?}"),
            }
        }
        other => panic!("unexpected {other:?}"),
    }
    match parse("(a + b) / 1e3").unwrap() {
        Expr::Binary { op: BinOp::Div, lhs, .. } => {
            assert!(matches!(*lhs, Expr::Binary { op: BinOp::Add, .. }));
        }
        other => panic!("unexpected {other:?}"),
    }
}

#[test]
fn tokenize_kinds() {
    let toks = tokenize("sum(x{a!~\"b\"}[5m]) / 2").unwrap();
    let kinds: Vec<TokKind> = toks.iter().map(|t| t.kind).collect();
    assert_eq!(
        kinds,
        vec![
            TokKind::Ident,
            TokKind::LParen,
            TokKind::Ident,
            TokKind::LBrace,
            TokKind::Ident,
            TokKind::NeMatch,
            TokKind::Str,
            TokKind::RBrace,
            TokKind::LBrack,
            TokKind::Duration,
            TokKind::RBrack,
            TokKind::RParen,
            TokKind::Slash,
            TokKind::Num,
        ]
    );
    assert_eq!(toks[6].text, "b");
    assert_eq!(toks[9].text, "5m");
    assert!(matches!(tokenize("x{a=\"unterminated"), Err(TsPromQlError::Parse(_))));
    assert!(matches!(tokenize("x # y"), Err(TsPromQlError::Parse(_))));
}
