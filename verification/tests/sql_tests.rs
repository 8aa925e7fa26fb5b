use subms_ts::sql::{
    parse, sql_tokenize, AggFunc, ArithOp, CmpOp, SelectItem, SqlExpr, SqlLiteral, SqlTokKind,
    TsSqlError, TsSqlStmt,
};

#[test]
fn parse_minimal_select() {
    let stmt = parse("SELECT symbol FROM trades").unwrap();
    assert_eq!(stmt.table, "trades");
    assert_eq!(stmt.projection.len(), 1);
    assert!(stmt.filter.is_none());
    assert!(stmt.group_by.is_empty());
    assert!(stmt.order_by.is_empty());
    assert!(stmt.limit.is_none());
}

#[test]
fn parse_is_case_insensitive_on_keywords_and_preserves_identifiers() {
    let stmt =
        parse("select Symbol from trades where price > 100 order by price desc limit 3").unwrap();
    match &stmt.projection[0] {
        SelectItem::Expr { expr, alias } => {
            assert_eq!(*expr, SqlExpr::Column("Symbol".to_string()));
            assert_eq!(alias, "Symbol");
        }
        _ => panic!("expected expr item"),
    }
    assert!(stmt.filter.is_some());
    assert_eq!(stmt.order_by.len(), 1);
    assert!(!stmt.order_by[0].ascending);
    assert_eq!(stmt.limit, Some(3));
}

#[test]
fn parse_handles_line_comments_and_string_literals() {
    let sql = "SELECT symbol -- the ticker\nFROM trades\nWHERE symbol = 'AA''PL' -- embedded quote";
    let stmt = parse(sql).unwrap();
    let SqlExpr::Compare(_, _, rhs) = stmt.filter.as_ref().unwrap() else {
        panic!("expected compare");
    };
    assert_eq!(**rhs, SqlExpr::Literal(SqlLiteral::Str("AA'PL".to_string())));
}

#[test]
fn parse_aggregates_and_star_count() {
    let stmt =
        parse("SELECT symbol, SUM(size) AS s, COUNT(*) AS n FROM trades GROUP BY symbol").unwrap();
    assert_eq!(stmt.group_by, vec!["symbol".to_string()]);
    let aggs: Vec<&SelectItem> = stmt.projection.iter().collect();
    match aggs[1] {
        SelectItem::Expr { expr, alias } => {
            assert_eq!(alias, "s");
            assert!(matches!(expr, SqlExpr::Aggregate { func: AggFunc::Sum, arg: Some(_) }));
        }
        _ => panic!(),
    }
    match aggs[2] {
        SelectItem::Expr { expr, .. } => {
            assert!(matches!(expr, SqlExpr::Aggregate { func: AggFunc::Count, arg: None }))
        }
        _ => panic!(),
    }
}

#[test]
fn parse_case_and_boolean_predicate() {
    let stmt = parse(
        "SELECT CASE WHEN price > 200 THEN 1 ELSE 0 END AS hi FROM trades \
         WHERE price > 100 AND NOT symbol = 'GOOG'",
    )
    .unwrap();
    assert!(matches!(stmt.projection[0], SelectItem::Expr { expr: SqlExpr::Case { .. }, .. }));
    assert!(matches!(stmt.filter, Some(SqlExpr::And(_, _))));
}

#[test]
fn parse_rejects_garbage_and_trailing_tokens() {
    assert!(matches!(parse("SELECT"), Err(TsSqlError::Parse(_))));
    assert!(matches!(parse("SELECT FROM trades"), Err(TsSqlError::Parse(_))));
    assert!(matches!(parse("SELECT a FROM trades EXTRA"), Err(TsSqlError::Parse(_))));
    assert!(matches!(parse(""), Err(TsSqlError::Parse(_))));
    assert!(matches!(
        parse("SELECT a FROM trades WHERE 'unterminated"),
        Err(TsSqlError::Parse(_))
    ));
}

#[test]
fn parse_rejects_unsupported_clauses_by_name() {
    assert_eq!(
        parse("SELECT a FROM t JOIN u"),
        Err(TsSqlError::Unsupported("JOIN".to_string()))
    );
    assert_eq!(
        parse("SELECT a FROM t GROUP BY a HAVING COUNT(*) > 1"),
        Err(TsSqlError::Unsupported("HAVING".to_string()))
    );
    assert_eq!(
        parse("SELECT a FROM t LEFT JOIN u"),
        Err(TsSqlError::Unsupported("LEFT".to_string()))
    );
}

#[test]
fn parse_is_exposed_for_independent_testing() {
    let stmt: TsSqlStmt = parse("SELECT a, b FROM t LIMIT 10").unwrap();
    assert_eq!(stmt.limit, Some(10));
    assert_eq!(stmt.projection.len(), 2);
}

#[test]
fn derived_aliases_and_star() {
    let stmt = parse("SELECT *, price * 2, size AS s, qty FROM t").unwrap();
    assert_eq!(stmt.projection.len(), 4);
    assert_eq!(stmt.projection[0], SelectItem::Star);
    match &stmt.projection[1] {
        SelectItem::Expr { expr, alias } => {
            assert_eq!(alias, "col_1");
            assert!(matches!(expr, SqlExpr::Arith(ArithOp::Mul, _, _)));
        }
        _ => panic!(),
    }
    match &stmt.projection[2] {
        SelectItem::Expr { alias, .. } => assert_eq!(alias, "s"),
        _ => panic!(),
    }
    match &stmt.projection[3] {
        SelectItem::Expr { alias, .. } => assert_eq!(alias, "qty"),
        _ => panic!(),
    }
}

#[test]
fn number_literals_and_unary_minus() {
    let stmt = parse("SELECT 42, 1.5e3, -7, -2.5, - -2.5, -x, 99999999999999999999 FROM t").unwrap();
    let exprs: Vec<&SqlExpr> = stmt
        .projection
        .iter()
        .map(|i| match i {
            SelectItem::Expr { expr, .. } => expr,
            SelectItem::Star => panic!(),
        })
        .collect();
    assert_eq!(*exprs[0], SqlExpr::Literal(SqlLiteral::Int(42)));
    assert_eq!(*exprs[1], SqlExpr::Literal(SqlLiteral::Num("1.5e3".to_string())));
    assert_eq!(*exprs[2], SqlExpr::Literal(SqlLiteral::Int(-7)));
    assert_eq!(*exprs[3], SqlExpr::Literal(SqlLiteral::Num("-2.5".to_string())));
    assert_eq!(*exprs[4], SqlExpr::Literal(SqlLiteral::Num("2.5".to_string())));
    assert_eq!(
        *exprs[5],
        SqlExpr::Arith(
            ArithOp::Sub,
            Box::new(SqlExpr::Literal(SqlLiteral::Int(0))),
            Box::new(SqlExpr::Column("x".to_string()))
        )
    );
    assert_eq!(
        *exprs[6],
        SqlExpr::Literal(SqlLiteral::Num("99999999999999999999".to_string()))
    );
    assert!(matches!(parse("SELECT 1.2.3 FROM t"), Err(TsSqlError::Parse(_))));
    assert!(matches!(parse("SELECT 1e FROM t"), Err(TsSqlError::Parse(_))));
}

#[test]
fn predicate_precedence_or_and_not() {
    let stmt = parse("SELECT a FROM t WHERE a = 1 OR b <> 2 AND NOT c >= 3").unwrap();
    match stmt.filter.unwrap() {
        SqlExpr::Or(l, r) => {
            assert!(matches!(*l, SqlExpr::Compare(CmpOp::Eq, _, _)));
            match *r {
                SqlExpr::And(a, b) => {
                    assert!(matches!(*a, SqlExpr::Compare(CmpOp::Ne, _, _)));
                    assert!(matches!(*b, SqlExpr::Not(_)));
                }
                other => panic!("unexpected {other:?}"),
            }
        }
        other => panic!("unexpected {other:?}"),
    }
}

#[test]
fn aggregate_argument_rules() {
    assert!(matches!(parse("SELECT SUM(*) FROM t"), Err(TsSqlError::Parse(_))));
    assert!(matches!(parse("SELECT SUM(MAX(x)) FROM t"), Err(TsSqlError::Parse(_))));
    assert!(matches!(parse("SELECT sum FROM t"), Err(TsSqlError::Parse(_))));
    assert!(matches!(parse("SELECT from FROM t"), Err(TsSqlError::Parse(_))));
    assert!(matches!(parse("SELECT a FROM t LIMIT -1"), Err(TsSqlError::Parse(_))));
    assert!(matches!(parse("SELECT a ! b FROM t"), Err(TsSqlError::Parse(_))));
    let stmt = parse("SELECT a FROM t ORDER BY a ASC, b DESC, c").unwrap();
    let keys: Vec<(String, bool)> =
        stmt.order_by.iter().map(|k| (k.column.clone(), k.ascending)).collect();
    assert_eq!(
        keys,
        vec![("a".to_string(), true), ("b".to_string(), false), ("c".to_string(), true)]
    );
    assert_eq!(
        parse("select a from t cross join u"),
        Err(TsSqlError::Unsupported("CROSS".to_string()))
    );
}

#[test]
fn lexer_tokens_and_comments() {
    let toks = sql_tokenize("a<=b<>c!=d>=e<f>g -- trailing\n'x''y'").unwrap();
    let kinds: Vec<SqlTokKind> = toks.iter().map(|t| t.kind).collect();
    assert_eq!(
        kinds,
        vec![
            SqlTokKind::Word,
            SqlTokKind::Le,
            SqlTokKind::Word,
            SqlTokKind::Ne,
            SqlTokKind::Word,
            SqlTokKind::Ne,
            SqlTokKind::Word,
            SqlTokKind::Ge,
            SqlTokKind::Word,
            SqlTokKind::Lt,
            SqlTokKind::Word,
            SqlTokKind::Gt,
            SqlTokKind::Word,
            SqlTokKind::Str,
        ]
    );
    assert_eq!(toks[13].text, "x'y");
    assert!(matches!(sql_tokenize("a # b"), Err(TsSqlError::Parse(_))));
    assert!(sql_tokenize("  -- only a comment").unwrap().is_empty());
}
