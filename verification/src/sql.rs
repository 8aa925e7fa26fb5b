//! The SQL subset front end: a byte-cursor lexer and a recursive-descent
//! parser for
//!
//! ```text
//! SELECT <proj> FROM <table>
//!   [WHERE <predicate>]
//!   [GROUP BY <col, ...>]
//!   [ORDER BY <col> [ASC|DESC], ...]
//!   [LIMIT <n>]
//! ```
//!
//! Keywords are matched case-insensitively; identifiers keep their case.
//! String literals are single-quoted with `''` as the embedded-quote escape.
//! `--` starts a line comment that runs to the newline. Anything structurally
//! outside the subset is a [`TsSqlError::Parse`]; an explicitly out-of-scope
//! clause (`JOIN`, `HAVING`, ...) is a [`TsSqlError::Unsupported`] naming it.
//!
//! The contracts state the grammar as spec functions over the token
//! sequence ([`stmt_at`]) and the lexer as spec functions over the UTF-8
//! bytes of the query ([`sql_lex_from`]).

use vstd::prelude::*;
use crate::promql::{float_text, float_text_exec};
use crate::text::{
    all_digits, ascii_lower, ascii_lower_string, dec_nat, digits_num, push_text, push_u64_dec,
    str_chars, str_eq, string_push,
};

verus! {

/// What can go wrong with a query. A malformed query is a `Parse` error; a
/// clause outside the subset is `Unsupported` (naming the clause); an
/// unknown table / column is the matching variant; a type / shape error is
/// `Type`.
#[derive(Clone, Debug, PartialEq, Eq)]
pub enum TsSqlError {
    Parse(String),
    UnknownTable(String),
    UnknownColumn(String),
    Unsupported(String),
    Type(String),
}

/// The text shown for a query error.
pub open spec fn sql_error_text(e: TsSqlError) -> Seq<char> {
    match e {
        TsSqlError::Parse(m) => "sql parse error: "@ + m@,
        TsSqlError::UnknownTable(t) => "unknown table: "@ + t@,
        TsSqlError::UnknownColumn(c) => "unknown column: "@ + c@,
        TsSqlError::Unsupported(c) => "unsupported clause: "@ + c@,
        TsSqlError::Type(m) => "type error: "@ + m@,
    }
}

impl TsSqlError {
    /// The error's text: the kind of failure, then its detail.
    pub fn message(&self) -> (m: String)
        ensures
            m@ == sql_error_text(*self),
    {
        let (mut m, detail) = match self {
            TsSqlError::Parse(d) => ("sql parse error: ".to_owned(), d),
            TsSqlError::UnknownTable(d) => ("unknown table: ".to_owned(), d),
            TsSqlError::UnknownColumn(d) => ("unknown column: ".to_owned(), d),
            TsSqlError::Unsupported(d) => ("unsupported clause: ".to_owned(), d),
            TsSqlError::Type(d) => ("type error: ".to_owned(), d),
        };
        push_text(&mut m, detail.as_str());
        m
    }
}

/// A scalar literal as written in the SQL text. A floating literal keeps its
/// text (checked to be a well-formed decimal floating-point literal, with a
/// leading `-` when negated).
#[derive(Clone, Debug, PartialEq)]
pub enum SqlLiteral {
    /// An integer literal with no decimal point or exponent (`42`).
    Int(i64),
    /// A floating literal (`3.5`, `1e3`).
    Num(String),
    /// A single-quoted string literal (`'AAPL'`).
    Str(String),
}

/// Arithmetic operators in a scalar expression.
#[derive(Clone, Copy, Debug, PartialEq, Eq)]
pub enum ArithOp {
    Add,
    Sub,
    Mul,
    Div,
}

/// Comparison operators in a predicate.
#[derive(Clone, Copy, Debug, PartialEq, Eq)]
pub enum CmpOp {
    Eq,
    Ne,
    Lt,
    Le,
    Gt,
    Ge,
}

/// The aggregate functions of the subset. `Count` covers both `COUNT(expr)`
/// and `COUNT(*)`; the latter carries no operand.
#[derive(Clone, Copy, Debug, PartialEq, Eq)]
pub enum AggFunc {
    Sum,
    Avg,
    Min,
    Max,
    Count,
}

/// A scalar / boolean expression: a projection scalar, a `WHERE` predicate,
/// or an aggregate operand.
#[derive(Debug, PartialEq)]
pub enum SqlExpr {
    /// A column reference (`price`).
    Column(String),
    /// A literal scalar.
    Literal(SqlLiteral),
    /// Binary arithmetic over two scalar sub-expressions.
    Arith(ArithOp, Box<SqlExpr>, Box<SqlExpr>),
    /// A comparison; yields a boolean.
    Compare(CmpOp, Box<SqlExpr>, Box<SqlExpr>),
    /// Boolean `AND` of two predicates.
    And(Box<SqlExpr>, Box<SqlExpr>),
    /// Boolean `OR` of two predicates.
    Or(Box<SqlExpr>, Box<SqlExpr>),
    /// Boolean `NOT` of a predicate.
    Not(Box<SqlExpr>),
    /// `CASE WHEN <pred> THEN <e> ELSE <e> END`.
    Case { when: Box<SqlExpr>, then: Box<SqlExpr>, otherwise: Box<SqlExpr> },
    /// An aggregate call. `arg` is `None` for `COUNT(*)`.
    Aggregate { func: AggFunc, arg: Option<Box<SqlExpr>> },
}

/// One item in the `SELECT` projection list.
#[derive(Debug, PartialEq)]
pub enum SelectItem {
    /// `*` - every source column, in source order.
    Star,
    /// A projected expression with its output column name: the `AS` name
    /// when present, else the bare column name, or `col_<index>` for a
    /// computed expression.
    Expr { expr: SqlExpr, alias: String },
}

/// One `ORDER BY` key.
#[derive(Clone, Debug, PartialEq)]
pub struct OrderKey {
    pub column: String,
    pub ascending: bool,
}

/// A parsed `SELECT` statement. Absent clauses are empty / `None`.
#[derive(Debug, PartialEq)]
pub struct TsSqlStmt {
    pub projection: Vec<SelectItem>,
    pub table: String,
    pub filter: Option<SqlExpr>,
    pub group_by: Vec<String>,
    pub order_by: Vec<OrderKey>,
    pub limit: Option<usize>,
}

// ---------- abstract syntax ----------

/// A literal, abstractly.
pub enum LitV {
    Int(int),
    Num(Seq<char>),
    Str(Seq<char>),
}

/// An expression, abstractly.
pub enum SqlExprV {
    Column(Seq<char>),
    Lit(LitV),
    Arith(ArithOp, Box<SqlExprV>, Box<SqlExprV>),
    Compare(CmpOp, Box<SqlExprV>, Box<SqlExprV>),
    And(Box<SqlExprV>, Box<SqlExprV>),
    Or(Box<SqlExprV>, Box<SqlExprV>),
    Not(Box<SqlExprV>),
    Case(Box<SqlExprV>, Box<SqlExprV>, Box<SqlExprV>),
    Agg(AggFunc, Option<Box<SqlExprV>>),
}

/// A projection item, abstractly.
pub enum ItemV {
    Star,
    Expr(SqlExprV, Seq<char>),
}

/// A statement, abstractly; an order key is its column and whether it is
/// ascending.
pub struct StmtV {
    pub projection: Seq<ItemV>,
    pub table: Seq<char>,
    pub filter: Option<SqlExprV>,
    pub group_by: Seq<Seq<char>>,
    pub order_by: Seq<(Seq<char>, bool)>,
    pub limit: Option<nat>,
}

/// How a statement fails, abstractly.
pub enum SqlErrV {
    Parse,
    Unsupported(Seq<char>),
}

pub open spec fn lit_v(l: SqlLiteral) -> LitV {
    match l {
        SqlLiteral::Int(n) => LitV::Int(n as int),
        SqlLiteral::Num(t) => LitV::Num(t@),
        SqlLiteral::Str(s) => LitV::Str(s@),
    }
}

pub open spec fn sql_expr_v(e: SqlExpr) -> SqlExprV
    decreases e,
{
    match e {
        SqlExpr::Column(c) => SqlExprV::Column(c@),
        SqlExpr::Literal(l) => SqlExprV::Lit(lit_v(l)),
        SqlExpr::Arith(op, a, b) => SqlExprV::Arith(
            op,
            Box::new(sql_expr_v(*a)),
            Box::new(sql_expr_v(*b)),
        ),
        SqlExpr::Compare(op, a, b) => SqlExprV::Compare(
            op,
            Box::new(sql_expr_v(*a)),
            Box::new(sql_expr_v(*b)),
        ),
        SqlExpr::And(a, b) => SqlExprV::And(Box::new(sql_expr_v(*a)), Box::new(sql_expr_v(*b))),
        SqlExpr::Or(a, b) => SqlExprV::Or(Box::new(sql_expr_v(*a)), Box::new(sql_expr_v(*b))),
        SqlExpr::Not(a) => SqlExprV::Not(Box::new(sql_expr_v(*a))),
        SqlExpr::Case { when, then, otherwise } => SqlExprV::Case(
            Box::new(sql_expr_v(*when)),
            Box::new(sql_expr_v(*then)),
            Box::new(sql_expr_v(*otherwise)),
        ),
        SqlExpr::Aggregate { func, arg } => SqlExprV::Agg(
            func,
            match arg {
                Some(a) => Some(Box::new(sql_expr_v(*a))),
                None => None,
            },
        ),
    }
}

pub open spec fn item_v(i: SelectItem) -> ItemV {
    match i {
        SelectItem::Star => ItemV::Star,
        SelectItem::Expr { expr, alias } => ItemV::Expr(sql_expr_v(expr), alias@),
    }
}

pub open spec fn stmt_v(s: TsSqlStmt) -> StmtV {
    StmtV {
        projection: s.projection@.map_values(|i: SelectItem| item_v(i)),
        table: s.table@,
        filter: match s.filter {
            Some(f) => Some(sql_expr_v(f)),
            None => None,
        },
        group_by: s.group_by@.map_values(|c: String| c@),
        order_by: s.order_by@.map_values(|k: OrderKey| (k.column@, k.ascending)),
        limit: match s.limit {
            Some(n) => Some(n as nat),
            None => None,
        },
    }
}

/// Does the expression contain an aggregate call anywhere in its tree?
pub open spec fn has_agg(e: SqlExprV) -> bool
    decreases e,
{
    match e {
        SqlExprV::Agg(..) => true,
        SqlExprV::Column(_) | SqlExprV::Lit(_) => false,
        SqlExprV::Arith(_, a, b) => has_agg(*a) || has_agg(*b),
        SqlExprV::Compare(_, a, b) => has_agg(*a) || has_agg(*b),
        SqlExprV::And(a, b) => has_agg(*a) || has_agg(*b),
        SqlExprV::Or(a, b) => has_agg(*a) || has_agg(*b),
        SqlExprV::Not(a) => has_agg(*a),
        SqlExprV::Case(w, t, o) => has_agg(*w) || has_agg(*t) || has_agg(*o),
    }
}

impl SqlExpr {
    /// Does this expression contain an aggregate call anywhere in its tree?
    /// A projection list with any aggregate is an aggregate query.
    pub fn contains_aggregate(&self) -> (b: bool)
        ensures
            b == has_agg(sql_expr_v(*self)),
        decreases self,
    {
        match self {
            SqlExpr::Aggregate { .. } => true,
            SqlExpr::Column(_) | SqlExpr::Literal(_) => false,
            SqlExpr::Arith(_, a, b) => a.contains_aggregate() || b.contains_aggregate(),
            SqlExpr::Compare(_, a, b) => a.contains_aggregate() || b.contains_aggregate(),
            SqlExpr::And(a, b) => a.contains_aggregate() || b.contains_aggregate(),
            SqlExpr::Or(a, b) => a.contains_aggregate() || b.contains_aggregate(),
            SqlExpr::Not(e) => e.contains_aggregate(),
            SqlExpr::Case { when, then, otherwise } => {
                when.contains_aggregate() || then.contains_aggregate()
                    || otherwise.contains_aggregate()
            },
        }
    }
}

// ---------- lexer ----------

/// Token kinds of the SQL subset.
#[derive(Clone, Copy, Debug, PartialEq, Eq, Structural)]
pub enum SqlTokKind {
    /// A bare identifier or keyword, spelled as written.
    Word,
    Num,
    Str,
    LParen,
    RParen,
    Comma,
    Star,
    Plus,
    Minus,
    Slash,
    Eq,
    Ne,
    Lt,
    Le,
    Gt,
    Ge,
}

/// A token: its kind and its text (word, number, or string body with `''`
/// unescaped; empty for punctuation).
#[derive(Debug)]
pub struct SqlToken {
    pub kind: SqlTokKind,
    pub text: String,
}

/// A token as a kind and text.
pub type SqlTokV = (SqlTokKind, Seq<char>);

pub open spec fn sql_tok_v(t: SqlToken) -> SqlTokV {
    (t.kind, t.text@)
}

pub open spec fn sql_toks_v(ts: Seq<SqlToken>) -> Seq<SqlTokV> {
    ts.map_values(|t: SqlToken| sql_tok_v(t))
}

/// ASCII whitespace bytes: space, tab, newline, form feed, carriage return.
pub open spec fn ws_byte(b: u8) -> bool {
    b == 32 || b == 9 || b == 10 || b == 12 || b == 13
}

pub open spec fn digit_byte(b: u8) -> bool {
    48 <= b <= 57
}

pub open spec fn alpha_byte(b: u8) -> bool {
    (65 <= b <= 90) || (97 <= b <= 122)
}

pub open spec fn word_start_byte(b: u8) -> bool {
    alpha_byte(b) || b == 95
}

pub open spec fn word_byte(b: u8) -> bool {
    alpha_byte(b) || digit_byte(b) || b == 95
}

/// Bytes read one for one as characters.
pub open spec fn bytes_text(b: Seq<u8>) -> Seq<char> {
    b.map_values(|x: u8| x as char)
}

/// The first newline at or after `p` (the length if none).
pub open spec fn line_end(b: Seq<u8>, p: int) -> int
    decreases b.len() - p,
{
    if 0 <= p < b.len() && b[p] != 10 {
        line_end(b, p + 1)
    } else {
        p
    }
}

pub proof fn lemma_line_end_ge(b: Seq<u8>, p: int)
    ensures
        line_end(b, p) >= p,
        p <= b.len() ==> line_end(b, p) <= b.len(),
    decreases b.len() - p,
{
    if 0 <= p < b.len() && b[p] != 10 {
        lemma_line_end_ge(b, p + 1);
    }
}

/// The first position at or after `p` that is neither whitespace nor inside
/// a `--` comment.
pub open spec fn trivia_end(b: Seq<u8>, p: int) -> int
    decreases b.len() - p,
{
    if 0 <= p < b.len() && ws_byte(b[p]) {
        trivia_end(b, p + 1)
    } else if 0 <= p && p + 1 < b.len() && b[p] == 45 && b[p + 1] == 45 {
        proof {
            lemma_line_end_ge(b, p + 2);
        }
        trivia_end(b, line_end(b, p + 2))
    } else {
        p
    }
}

/// The end of a run of word bytes from `p`.
pub open spec fn word_end(b: Seq<u8>, p: int) -> int
    decreases b.len() - p,
{
    if 0 <= p < b.len() && word_byte(b[p]) {
        word_end(b, p + 1)
    } else {
        p
    }
}

/// The end of a number's run from `i` (digits, `.`, `e`/`E`, and a sign
/// right after an exponent marker).
pub open spec fn num_end(b: Seq<u8>, i: int) -> int
    decreases b.len() - i,
{
    if i < 1 || i >= b.len() {
        i
    } else if digit_byte(b[i]) || b[i] == 46 || b[i] == 101 || b[i] == 69 {
        num_end(b, i + 1)
    } else if (b[i] == 43 || b[i] == 45) && (b[i - 1] == 101 || b[i - 1] == 69) {
        num_end(b, i + 1)
    } else {
        i
    }
}

/// A string literal's body from `i` (after the opening quote) appended to
/// `acc`, with `''` read as one quote; and the position after the closing
/// quote. `None` when the literal is not closed.
pub open spec fn string_body(b: Seq<u8>, i: int, acc: Seq<char>) -> Option<(Seq<char>, int)>
    decreases b.len() - i,
{
    if i < 0 || i >= b.len() {
        None
    } else if b[i] == 39 {
        if i + 1 < b.len() && b[i + 1] == 39 {
            string_body(b, i + 2, acc.push('\''))
        } else {
            Some((acc, i + 1))
        }
    } else {
        string_body(b, i + 1, acc.push(b[i] as char))
    }
}

pub open spec fn sql_single_kind(c: u8) -> Option<SqlTokKind> {
    if c == 40 {
        Some(SqlTokKind::LParen)
    } else if c == 41 {
        Some(SqlTokKind::RParen)
    } else if c == 44 {
        Some(SqlTokKind::Comma)
    } else if c == 42 {
        Some(SqlTokKind::Star)
    } else if c == 43 {
        Some(SqlTokKind::Plus)
    } else if c == 45 {
        Some(SqlTokKind::Minus)
    } else if c == 47 {
        Some(SqlTokKind::Slash)
    } else if c == 61 {
        Some(SqlTokKind::Eq)
    } else {
        None
    }
}

/// The token starting at `p` (a position past the trivia) and where it
/// ends; `None` on a lexical error (unterminated string, `!` not followed
/// by `=`, or a byte no token starts with).
pub open spec fn sql_lex_at(b: Seq<u8>, p: int) -> Option<(SqlTokKind, Seq<char>, int)> {
    let c = b[p];
    if sql_single_kind(c) is Some {
        Some((sql_single_kind(c)->0, Seq::empty(), p + 1))
    } else if c == 39 {
        match string_body(b, p + 1, Seq::empty()) {
            Some((body, e)) => Some((SqlTokKind::Str, body, e)),
            None => None,
        }
    } else if c == 60 {
        if p + 1 < b.len() && b[p + 1] == 61 {
            Some((SqlTokKind::Le, Seq::empty(), p + 2))
        } else if p + 1 < b.len() && b[p + 1] == 62 {
            Some((SqlTokKind::Ne, Seq::empty(), p + 2))
        } else {
            Some((SqlTokKind::Lt, Seq::empty(), p + 1))
        }
    } else if c == 62 {
        if p + 1 < b.len() && b[p + 1] == 61 {
            Some((SqlTokKind::Ge, Seq::empty(), p + 2))
        } else {
            Some((SqlTokKind::Gt, Seq::empty(), p + 1))
        }
    } else if c == 33 {
        if p + 1 < b.len() && b[p + 1] == 61 {
            Some((SqlTokKind::Ne, Seq::empty(), p + 2))
        } else {
            None
        }
    } else if digit_byte(c) {
        let e = num_end(b, p + 1);
        Some((SqlTokKind::Num, bytes_text(b.subrange(p, e)), e))
    } else if word_start_byte(c) {
        let e = word_end(b, p + 1);
        Some((SqlTokKind::Word, bytes_text(b.subrange(p, e)), e))
    } else {
        None
    }
}

/// The tokens of the bytes `b` from `p` on; `None` on a lexical error.
pub open spec fn sql_lex_from(b: Seq<u8>, p: int) -> Option<Seq<SqlTokV>>
    decreases b.len() - p,
{
    let q = trivia_end(b, p);
    if p < 0 || q < p || q >= b.len() {
        Some(Seq::empty())
    } else {
        match sql_lex_at(b, q) {
            None => None,
            Some((k, t, r)) => if q < r <= b.len() {
                match sql_lex_from(b, r) {
                    Some(rest) => Some(seq![(k, t)] + rest),
                    None => None,
                }
            } else {
                None
            },
        }
    }
}

fn sql_single_kind_exec(c: u8) -> (k: Option<SqlTokKind>)
    ensures
        k == sql_single_kind(c),
{
    if c == 40 {
        Some(SqlTokKind::LParen)
    } else if c == 41 {
        Some(SqlTokKind::RParen)
    } else if c == 44 {
        Some(SqlTokKind::Comma)
    } else if c == 42 {
        Some(SqlTokKind::Star)
    } else if c == 43 {
        Some(SqlTokKind::Plus)
    } else if c == 45 {
        Some(SqlTokKind::Minus)
    } else if c == 47 {
        Some(SqlTokKind::Slash)
    } else if c == 61 {
        Some(SqlTokKind::Eq)
    } else {
        None
    }
}

/// The text of `b[from..to]`, each byte read as one character.
fn bytes_to_string(b: &[u8], from: usize, to: usize) -> (s: String)
    requires
        from <= to <= b@.len(),
    ensures
        s@ == bytes_text(b@.subrange(from as int, to as int)),
{
    let mut s = String::new();
    let mut i = from;
    while i < to
        invariant
            from <= i <= to <= b@.len(),
            s@ == bytes_text(b@.subrange(from as int, i as int)),
        decreases to - i,
    {
        let c = b[i] as char;
        string_push(&mut s, c);
        assert(bytes_text(b@.subrange(from as int, i + 1)) =~= bytes_text(
            b@.subrange(from as int, i as int),
        ).push(c));
        i = i + 1;
    }
    s
}

fn lex_err<A>(msg: &str) -> (r: Result<A, TsSqlError>)
    ensures
        r matches Err(e) && e is Parse,
{
    Err(TsSqlError::Parse(msg.to_string()))
}

/// The token at `p` (a position past the trivia): kind, text, end.
fn sql_lex_at_exec(b: &[u8], p: usize) -> (r: Result<(SqlTokKind, String, usize), TsSqlError>)
    requires
        p < b@.len(),
    ensures
        match r {
            Ok((k, t, e)) => sql_lex_at(b@, p as int) == Some((k, t@, e as int)) && p < e
                <= b@.len(),
            Err(err) => err is Parse && sql_lex_at(b@, p as int) is None,
        },
{
    let n = b.len();
    let c = b[p];
    if let Some(k) = sql_single_kind_exec(c) {
        return Ok((k, String::new(), p + 1));
    }
    if c == 39 {
        let mut out = String::new();
        let mut i = p + 1;
        loop
            invariant
                p + 1 <= i <= n,
                n == b@.len(),
                p < n,
                b@[p as int] == 39,
                string_body(b@, p + 1, Seq::empty()) == string_body(b@, i as int, out@),
            decreases n - i,
        {
            if i >= n {
                return lex_err("unterminated string literal");
            }
            let d = b[i];
            if d == 39 {
                if i + 1 < n && b[i + 1] == 39 {
                    string_push(&mut out, '\'');
                    i = i + 2;
                } else {
                    return Ok((SqlTokKind::Str, out, i + 1));
                }
            } else {
                string_push(&mut out, d as char);
                i = i + 1;
            }
        }
    }
    if c == 60 {
        if p + 1 < n && b[p + 1] == 61 {
            return Ok((SqlTokKind::Le, String::new(), p + 2));
        }
        if p + 1 < n && b[p + 1] == 62 {
            return Ok((SqlTokKind::Ne, String::new(), p + 2));
        }
        return Ok((SqlTokKind::Lt, String::new(), p + 1));
    }
    if c == 62 {
        if p + 1 < n && b[p + 1] == 61 {
            return Ok((SqlTokKind::Ge, String::new(), p + 2));
        }
        return Ok((SqlTokKind::Gt, String::new(), p + 1));
    }
    if c == 33 {
        if p + 1 < n && b[p + 1] == 61 {
            return Ok((SqlTokKind::Ne, String::new(), p + 2));
        }
        return lex_err("expected '=' after '!'");
    }
    if 48 <= c && c <= 57 {
        let mut e = p + 1;
        while e < n && ((48 <= b[e] && b[e] <= 57) || b[e] == 46 || b[e] == 101 || b[e] == 69 || (
        (b[e] == 43 || b[e] == 45) && (b[e - 1] == 101 || b[e - 1] == 69)))
            invariant
                p + 1 <= e <= n,
                n == b@.len(),
                num_end(b@, p + 1) == num_end(b@, e as int),
            decreases n - e,
        {
            e = e + 1;
        }
        let t = bytes_to_string(b, p, e);
        return Ok((SqlTokKind::Num, t, e));
    }
    if (65 <= c && c <= 90) || (97 <= c && c <= 122) || c == 95 {
        let mut e = p + 1;
        while e < n && ((65 <= b[e] && b[e] <= 90) || (97 <= b[e] && b[e] <= 122) || (48 <= b[e]
            && b[e] <= 57) || b[e] == 95)
            invariant
                p + 1 <= e <= n,
                n == b@.len(),
                word_end(b@, p + 1) == word_end(b@, e as int),
            decreases n - e,
        {
            e = e + 1;
        }
        let t = bytes_to_string(b, p, e);
        return Ok((SqlTokKind::Word, t, e));
    }
    lex_err("unexpected character")
}

/// Split a query into tokens over its UTF-8 bytes. A lexical error is a
/// `Parse` error.
pub fn sql_tokenize(src: &str) -> (r: Result<Vec<SqlToken>, TsSqlError>)
    ensures
        match r {
            Ok(ts) => sql_lex_from(vstd::utf8::encode_utf8(src@), 0) == Some(sql_toks_v(ts@)),
            Err(e) => e is Parse && sql_lex_from(vstd::utf8::encode_utf8(src@), 0) is None,
        },
{
    let b = src.as_bytes();
    let ghost bs = b@;
    assert(bs == vstd::utf8::encode_utf8(src@));
    let n = b.len();
    let mut out: Vec<SqlToken> = Vec::new();
    let mut p: usize = 0;
    while p < n
        invariant
            p <= n,
            n == b@.len(),
            bs == b@,
            bs == vstd::utf8::encode_utf8(src@),
            sql_lex_from(bs, 0) == match sql_lex_from(bs, p as int) {
                Some(rest) => Some(sql_toks_v(out@) + rest),
                None => None::<Seq<SqlTokV>>,
            },
        decreases n - p,
    {
        let mut q = p;
        loop
            invariant
                p <= q <= n,
                n == b@.len(),
                trivia_end(b@, p as int) == trivia_end(b@, q as int),
            ensures
                p <= q <= n,
                trivia_end(b@, p as int) == q,
            decreases n - q,
        {
            if q < n && (b[q] == 32 || b[q] == 9 || b[q] == 10 || b[q] == 12 || b[q] == 13) {
                q = q + 1;
            } else if n - q >= 2 && b[q] == 45 && b[q + 1] == 45 {
                let mut e = q + 2;
                while e < n && b[e] != 10
                    invariant
                        q + 2 <= e <= n,
                        n == b@.len(),
                        line_end(b@, q + 2) == line_end(b@, e as int),
                    decreases n - e,
                {
                    e = e + 1;
                }
                q = e;
            } else {
                break;
            }
        }
        if q >= n {
            proof {
                assert(sql_lex_from(bs, p as int) == Some(Seq::<SqlTokV>::empty()));
                assert(sql_toks_v(out@) + Seq::<SqlTokV>::empty() =~= sql_toks_v(out@));
                assert(sql_lex_from(bs, n as int) == Some(Seq::<SqlTokV>::empty()));
            }
            p = n;
        } else {
            let (k, t, e) = match sql_lex_at_exec(b, q) {
                Ok(x) => x,
                Err(err) => {
                    proof {
                        assert(trivia_end(bs, p as int) == q);
                        assert(sql_lex_from(bs, p as int) is None);
                    }
                    return Err(err);
                },
            };
            let ghost prev = out@;
            let ghost tv = t@;
            out.push(SqlToken { kind: k, text: t });
            proof {
                assert(sql_toks_v(out@) =~= sql_toks_v(prev).push((k, tv)));
                assert(sql_toks_v(prev) + (seq![(k, tv)] + match sql_lex_from(bs, e as int) {
                    Some(rest) => rest,
                    None => Seq::<SqlTokV>::empty(),
                }) =~= sql_toks_v(out@) + match sql_lex_from(bs, e as int) {
                    Some(rest) => rest,
                    None => Seq::<SqlTokV>::empty(),
                });
            }
            p = e;
        }
    }
    proof {
        if p >= n {
            assert(sql_lex_from(bs, p as int) == Some(Seq::<SqlTokV>::empty()));
            assert(sql_toks_v(out@) + Seq::<SqlTokV>::empty() =~= sql_toks_v(out@));
        }
    }
    Ok(out)
}

// ---------- grammar ----------

pub open spec fn sql_kind_at(t: Seq<SqlTokV>, i: int) -> Option<SqlTokKind> {
    if 0 <= i < t.len() {
        Some(t[i].0)
    } else {
        None
    }
}

/// Token `i` is the keyword `k` (given in lower case), in any letter case.
pub open spec fn kw_at(t: Seq<SqlTokV>, i: int, k: Seq<char>) -> bool {
    0 <= i < t.len() && t[i].0 == SqlTokKind::Word && ascii_lower(t[i].1) == k
}

/// Words that may never be an identifier or a bare column reference.
/// Aggregate-function names are not among them.
pub open spec fn is_reserved(w: Seq<char>) -> bool {
    let l = ascii_lower(w);
    ||| l == "select"@
    ||| l == "from"@
    ||| l == "where"@
    ||| l == "group"@
    ||| l == "by"@
    ||| l == "order"@
    ||| l == "limit"@
    ||| l == "as"@
    ||| l == "and"@
    ||| l == "or"@
    ||| l == "not"@
    ||| l == "case"@
    ||| l == "when"@
    ||| l == "then"@
    ||| l == "else"@
    ||| l == "end"@
    ||| l == "asc"@
    ||| l == "desc"@
    ||| l == "having"@
    ||| l == "join"@
}

/// The aggregate function a word names, in any letter case.
pub open spec fn agg_of_word(w: Seq<char>) -> Option<AggFunc> {
    let l = ascii_lower(w);
    if l == "sum"@ {
        Some(AggFunc::Sum)
    } else if l == "avg"@ {
        Some(AggFunc::Avg)
    } else if l == "min"@ {
        Some(AggFunc::Min)
    } else if l == "max"@ {
        Some(AggFunc::Max)
    } else if l == "count"@ {
        Some(AggFunc::Count)
    } else {
        None
    }
}

/// An identifier (a word that is not reserved) at `i`.
pub open spec fn ident_at(t: Seq<SqlTokV>, i: int) -> Option<(Seq<char>, int)> {
    if 0 <= i < t.len() && t[i].0 == SqlTokKind::Word && !is_reserved(t[i].1) {
        Some((t[i].1, i + 1))
    } else {
        None
    }
}

/// The literal a number token stands for: an `i64` when it is all digits
/// and fits, else a floating literal when it is one; `None` otherwise.
pub open spec fn number_lit(w: Seq<char>) -> Option<LitV> {
    if w.len() > 0 && all_digits(w) && digits_num(w) <= i64::MAX {
        Some(LitV::Int(digits_num(w)))
    } else if float_text(w) {
        Some(LitV::Num(w))
    } else {
        None
    }
}

/// The text of a floating literal with its sign flipped.
pub open spec fn neg_text(w: Seq<char>) -> Seq<char> {
    if w.len() > 0 && w[0] == '-' {
        w.skip(1)
    } else {
        seq!['-'] + w
    }
}

/// Unary minus: a literal number takes the sign, anything else is `0 - x`.
pub open spec fn negate_v(e: SqlExprV) -> SqlExprV {
    match e {
        SqlExprV::Lit(LitV::Int(n)) => SqlExprV::Lit(LitV::Int(-n)),
        SqlExprV::Lit(LitV::Num(w)) => SqlExprV::Lit(LitV::Num(neg_text(w))),
        _ => SqlExprV::Arith(ArithOp::Sub, Box::new(SqlExprV::Lit(LitV::Int(0))), Box::new(e)),
    }
}

pub open spec fn relation_of(k: SqlTokKind) -> Option<CmpOp> {
    match k {
        SqlTokKind::Eq => Some(CmpOp::Eq),
        SqlTokKind::Ne => Some(CmpOp::Ne),
        SqlTokKind::Lt => Some(CmpOp::Lt),
        SqlTokKind::Le => Some(CmpOp::Le),
        SqlTokKind::Gt => Some(CmpOp::Gt),
        SqlTokKind::Ge => Some(CmpOp::Ge),
        _ => None,
    }
}

/// predicate := and ('OR' and)*
pub open spec fn or_at(t: Seq<SqlTokV>, pos: int) -> Option<(SqlExprV, int)>
    decreases t.len() - pos, 8int,
{
    match and_at(t, pos) {
        Some((l, p2)) => if pos < p2 <= t.len() {
            or_rest_at(t, l, p2)
        } else {
            None
        },
        None => None,
    }
}

pub open spec fn or_rest_at(t: Seq<SqlTokV>, lhs: SqlExprV, pos: int) -> Option<(SqlExprV, int)>
    decreases t.len() - pos, 0int,
{
    if !kw_at(t, pos, "or"@) {
        Some((lhs, pos))
    } else {
        match and_at(t, pos + 1) {
            Some((r, p3)) => if pos + 1 < p3 <= t.len() {
                or_rest_at(t, SqlExprV::Or(Box::new(lhs), Box::new(r)), p3)
            } else {
                None
            },
            None => None,
        }
    }
}

/// and := not ('AND' not)*
pub open spec fn and_at(t: Seq<SqlTokV>, pos: int) -> Option<(SqlExprV, int)>
    decreases t.len() - pos, 7int,
{
    match not_at(t, pos) {
        Some((l, p2)) => if pos < p2 <= t.len() {
            and_rest_at(t, l, p2)
        } else {
            None
        },
        None => None,
    }
}

pub open spec fn and_rest_at(t: Seq<SqlTokV>, lhs: SqlExprV, pos: int) -> Option<(SqlExprV, int)>
    decreases t.len() - pos, 0int,
{
    if !kw_at(t, pos, "and"@) {
        Some((lhs, pos))
    } else {
        match not_at(t, pos + 1) {
            Some((r, p3)) => if pos + 1 < p3 <= t.len() {
                and_rest_at(t, SqlExprV::And(Box::new(lhs), Box::new(r)), p3)
            } else {
                None
            },
            None => None,
        }
    }
}

/// not := 'NOT' not | comparison
pub open spec fn not_at(t: Seq<SqlTokV>, pos: int) -> Option<(SqlExprV, int)>
    decreases t.len() - pos, 6int,
{
    if kw_at(t, pos, "not"@) {
        match not_at(t, pos + 1) {
            Some((e, p2)) => Some((SqlExprV::Not(Box::new(e)), p2)),
            None => None,
        }
    } else {
        relation_at(t, pos)
    }
}

/// comparison := expr (relational-operator expr)?
pub open spec fn relation_at(t: Seq<SqlTokV>, pos: int) -> Option<(SqlExprV, int)>
    decreases t.len() - pos, 5int,
{
    match sum_at(t, pos) {
        Some((l, p2)) => if !(pos < p2 <= t.len()) {
            None
        } else if p2 < t.len() && relation_of(t[p2].0) is Some {
            match sum_at(t, p2 + 1) {
                Some((r, p3)) => Some(
                    (SqlExprV::Compare(relation_of(t[p2].0)->0, Box::new(l), Box::new(r)), p3),
                ),
                None => None,
            }
        } else {
            Some((l, p2))
        },
        None => None,
    }
}

/// expr := term (('+' | '-') term)*
pub open spec fn sum_at(t: Seq<SqlTokV>, pos: int) -> Option<(SqlExprV, int)>
    decreases t.len() - pos, 4int,
{
    match prod_at(t, pos) {
        Some((l, p2)) => if pos < p2 <= t.len() {
            sum_rest_at(t, l, p2)
        } else {
            None
        },
        None => None,
    }
}

pub open spec fn sum_rest_at(t: Seq<SqlTokV>, lhs: SqlExprV, pos: int) -> Option<(SqlExprV, int)>
    decreases t.len() - pos, 0int,
{
    let op = if sql_kind_at(t, pos) == Some(SqlTokKind::Plus) {
        Some(ArithOp::Add)
    } else if sql_kind_at(t, pos) == Some(SqlTokKind::Minus) {
        Some(ArithOp::Sub)
    } else {
        None
    };
    match op {
        None => Some((lhs, pos)),
        Some(o) => match prod_at(t, pos + 1) {
            Some((r, p3)) => if pos + 1 < p3 <= t.len() {
                sum_rest_at(t, SqlExprV::Arith(o, Box::new(lhs), Box::new(r)), p3)
            } else {
                None
            },
            None => None,
        },
    }
}

/// term := factor (('*' | '/') factor)*
pub open spec fn prod_at(t: Seq<SqlTokV>, pos: int) -> Option<(SqlExprV, int)>
    decreases t.len() - pos, 3int,
{
    match factor_at(t, pos) {
        Some((l, p2)) => if pos < p2 <= t.len() {
            prod_rest_at(t, l, p2)
        } else {
            None
        },
        None => None,
    }
}

pub open spec fn prod_rest_at(t: Seq<SqlTokV>, lhs: SqlExprV, pos: int) -> Option<(SqlExprV, int)>
    decreases t.len() - pos, 0int,
{
    let op = if sql_kind_at(t, pos) == Some(SqlTokKind::Star) {
        Some(ArithOp::Mul)
    } else if sql_kind_at(t, pos) == Some(SqlTokKind::Slash) {
        Some(ArithOp::Div)
    } else {
        None
    };
    match op {
        None => Some((lhs, pos)),
        Some(o) => match factor_at(t, pos + 1) {
            Some((r, p3)) => if pos + 1 < p3 <= t.len() {
                prod_rest_at(t, SqlExprV::Arith(o, Box::new(lhs), Box::new(r)), p3)
            } else {
                None
            },
            None => None,
        },
    }
}

/// factor := number | string | '-' factor | '(' predicate ')' | CASE
///         | aggregate | column
pub open spec fn factor_at(t: Seq<SqlTokV>, pos: int) -> Option<(SqlExprV, int)>
    decreases t.len() - pos, 2int,
{
    if pos < 0 || pos >= t.len() {
        None
    } else {
        let (k, w) = t[pos];
        match k {
            SqlTokKind::Num => match number_lit(w) {
                Some(l) => Some((SqlExprV::Lit(l), pos + 1)),
                None => None,
            },
            SqlTokKind::Str => Some((SqlExprV::Lit(LitV::Str(w)), pos + 1)),
            SqlTokKind::Minus => match factor_at(t, pos + 1) {
                Some((e, p2)) => Some((negate_v(e), p2)),
                None => None,
            },
            SqlTokKind::LParen => match or_at(t, pos + 1) {
                Some((e, p2)) => if sql_kind_at(t, p2) == Some(SqlTokKind::RParen) {
                    Some((e, p2 + 1))
                } else {
                    None
                },
                None => None,
            },
            SqlTokKind::Word => if ascii_lower(w) == "case"@ {
                case_at(t, pos)
            } else if agg_of_word(w) is Some {
                call_at(t, agg_of_word(w)->0, pos + 1)
            } else if is_reserved(w) {
                None
            } else {
                Some((SqlExprV::Column(w), pos + 1))
            },
            _ => None,
        }
    }
}

/// `CASE WHEN <pred> THEN <expr> ELSE <expr> END` from the `CASE` at `pos`.
pub open spec fn case_at(t: Seq<SqlTokV>, pos: int) -> Option<(SqlExprV, int)>
    decreases t.len() - pos, 1int,
{
    if !kw_at(t, pos + 1, "when"@) {
        None
    } else {
        match or_at(t, pos + 2) {
            None => None,
            Some((w, p1)) => if !(pos < p1 <= t.len()) || !kw_at(t, p1, "then"@) {
                None
            } else {
                match sum_at(t, p1 + 1) {
                    None => None,
                    Some((th, p2)) => if !(p1 < p2 <= t.len()) || !kw_at(t, p2, "else"@) {
                        None
                    } else {
                        match sum_at(t, p2 + 1) {
                            None => None,
                            Some((el, p3)) => if !kw_at(t, p3, "end"@) {
                                None
                            } else {
                                Some(
                                    (
                                        SqlExprV::Case(Box::new(w), Box::new(th), Box::new(el)),
                                        p3 + 1,
                                    ),
                                )
                            },
                        }
                    },
                }
            },
        }
    }
}

/// `( * )` or `( expr )` after an aggregate's name; only `COUNT` takes `*`,
/// and an aggregate may not nest inside another.
pub open spec fn call_at(t: Seq<SqlTokV>, f: AggFunc, pos: int) -> Option<(SqlExprV, int)>
    decreases t.len() - pos, 1int,
{
    if sql_kind_at(t, pos) != Some(SqlTokKind::LParen) {
        None
    } else if sql_kind_at(t, pos + 1) == Some(SqlTokKind::Star) {
        if sql_kind_at(t, pos + 2) != Some(SqlTokKind::RParen) || f != AggFunc::Count {
            None
        } else {
            Some((SqlExprV::Agg(f, None), pos + 3))
        }
    } else {
        match sum_at(t, pos + 1) {
            None => None,
            Some((arg, p2)) => if has_agg(arg) || sql_kind_at(t, p2) != Some(SqlTokKind::RParen) {
                None
            } else {
                Some((SqlExprV::Agg(f, Some(Box::new(arg))), p2 + 1))
            },
        }
    }
}

/// The output name of a projected expression without `AS`: a bare column
/// keeps its name; anything computed is `col_<index>`.
pub open spec fn derive_alias(e: SqlExprV, index: nat) -> Seq<char> {
    match e {
        SqlExprV::Column(name) => name,
        _ => "col_"@ + dec_nat(index),
    }
}

/// The projection items from `pos` appended to `acc`, and where the list
/// ends.
pub open spec fn proj_at(t: Seq<SqlTokV>, pos: int, acc: Seq<ItemV>) -> Option<(Seq<ItemV>, int)>
    decreases t.len() - pos,
{
    let item: Option<(ItemV, int)> = if sql_kind_at(t, pos) == Some(SqlTokKind::Star) {
        Some((ItemV::Star, pos + 1))
    } else {
        match sum_at(t, pos) {
            None => None,
            Some((e, p2)) => if kw_at(t, p2, "as"@) {
                match ident_at(t, p2 + 1) {
                    None => None,
                    Some((a, p3)) => Some((ItemV::Expr(e, a), p3)),
                }
            } else {
                Some((ItemV::Expr(e, derive_alias(e, acc.len())), p2))
            },
        }
    };
    match item {
        None => None,
        Some((it, p1)) => if !(pos < p1 <= t.len()) {
            None
        } else if sql_kind_at(t, p1) == Some(SqlTokKind::Comma) {
            proj_at(t, p1 + 1, acc.push(it))
        } else {
            Some((acc.push(it), p1))
        },
    }
}

/// A comma-separated identifier list from `pos` appended to `acc`.
pub open spec fn cols_at(t: Seq<SqlTokV>, pos: int, acc: Seq<Seq<char>>) -> Option<
    (Seq<Seq<char>>, int),
>
    decreases t.len() - pos,
{
    match ident_at(t, pos) {
        None => None,
        Some((c, p1)) => if sql_kind_at(t, p1) == Some(SqlTokKind::Comma) {
            cols_at(t, p1 + 1, acc.push(c))
        } else {
            Some((acc.push(c), p1))
        },
    }
}

/// `ORDER BY` keys from `pos` appended to `acc`; `ASC` is the default.
pub open spec fn keys_at(t: Seq<SqlTokV>, pos: int, acc: Seq<(Seq<char>, bool)>) -> Option<
    (Seq<(Seq<char>, bool)>, int),
>
    decreases t.len() - pos,
{
    match ident_at(t, pos) {
        None => None,
        Some((c, p1)) => {
            let (asc, p2) = if kw_at(t, p1, "desc"@) {
                (false, p1 + 1)
            } else if kw_at(t, p1, "asc"@) {
                (true, p1 + 1)
            } else {
                (true, p1)
            };
            if sql_kind_at(t, p2) == Some(SqlTokKind::Comma) {
                keys_at(t, p2 + 1, acc.push((c, asc)))
            } else {
                Some((acc.push((c, asc)), p2))
            }
        },
    }
}

/// The `LIMIT` count at `pos`: a number token of digits that fits `usize`.
pub open spec fn limit_at(t: Seq<SqlTokV>, pos: int) -> Option<(nat, int)> {
    if 0 <= pos < t.len() && t[pos].0 == SqlTokKind::Num && t[pos].1.len() > 0 && all_digits(
        t[pos].1,
    ) && digits_num(t[pos].1) <= usize::MAX {
        Some((digits_num(t[pos].1) as nat, pos + 1))
    } else {
        None
    }
}

/// A join keyword right after the table name, by its upper-case name.
pub open spec fn join_at(t: Seq<SqlTokV>, pos: int) -> Option<Seq<char>> {
    if kw_at(t, pos, "join"@) {
        Some("JOIN"@)
    } else if kw_at(t, pos, "inner"@) {
        Some("INNER"@)
    } else if kw_at(t, pos, "left"@) {
        Some("LEFT"@)
    } else if kw_at(t, pos, "right"@) {
        Some("RIGHT"@)
    } else if kw_at(t, pos, "full"@) {
        Some("FULL"@)
    } else if kw_at(t, pos, "cross"@) {
        Some("CROSS"@)
    } else {
        None
    }
}

pub open spec fn where_at(t: Seq<SqlTokV>, pos: int) -> Option<(Option<SqlExprV>, int)> {
    if kw_at(t, pos, "where"@) {
        match or_at(t, pos + 1) {
            Some((e, p)) => Some((Some(e), p)),
            None => None,
        }
    } else {
        Some((None, pos))
    }
}

pub open spec fn group_at(t: Seq<SqlTokV>, pos: int) -> Option<(Seq<Seq<char>>, int)> {
    if kw_at(t, pos, "group"@) {
        if kw_at(t, pos + 1, "by"@) {
            cols_at(t, pos + 2, Seq::empty())
        } else {
            None
        }
    } else {
        Some((Seq::empty(), pos))
    }
}

pub open spec fn order_at(t: Seq<SqlTokV>, pos: int) -> Option<(Seq<(Seq<char>, bool)>, int)> {
    if kw_at(t, pos, "order"@) {
        if kw_at(t, pos + 1, "by"@) {
            keys_at(t, pos + 2, Seq::empty())
        } else {
            None
        }
    } else {
        Some((Seq::empty(), pos))
    }
}

pub open spec fn limit_clause_at(t: Seq<SqlTokV>, pos: int) -> Option<(Option<nat>, int)> {
    if kw_at(t, pos, "limit"@) {
        match limit_at(t, pos + 1) {
            Some((n, p)) => Some((Some(n), p)),
            None => None,
        }
    } else {
        Some((None, pos))
    }
}

/// The statement the whole token sequence spells, or how it fails.
pub open spec fn stmt_at(t: Seq<SqlTokV>) -> Result<StmtV, SqlErrV> {
    if !kw_at(t, 0, "select"@) {
        Err(SqlErrV::Parse)
    } else {
        match proj_at(t, 1, Seq::empty()) {
            None => Err(SqlErrV::Parse),
            Some((projection, p1)) => if !kw_at(t, p1, "from"@) {
                Err(SqlErrV::Parse)
            } else {
                match ident_at(t, p1 + 1) {
                    None => Err(SqlErrV::Parse),
                    Some((table, p2)) => match join_at(t, p2) {
                        Some(k) => Err(SqlErrV::Unsupported(k)),
                        None => match where_at(t, p2) {
                            None => Err(SqlErrV::Parse),
                            Some((filter, p3)) => match group_at(t, p3) {
                                None => Err(SqlErrV::Parse),
                                Some((group_by, p4)) => if kw_at(t, p4, "having"@) {
                                    Err(SqlErrV::Unsupported("HAVING"@))
                                } else {
                                    match order_at(t, p4) {
                                        None => Err(SqlErrV::Parse),
                                        Some((order_by, p5)) => match limit_clause_at(t, p5) {
                                            None => Err(SqlErrV::Parse),
                                            Some((limit, p6)) => if p6 != t.len() {
                                                Err(SqlErrV::Parse)
                                            } else {
                                                Ok(
                                                    StmtV {
                                                        projection,
                                                        table,
                                                        filter,
                                                        group_by,
                                                        order_by,
                                                        limit,
                                                    },
                                                )
                                            },
                                        },
                                    }
                                },
                            },
                        },
                    },
                }
            },
        }
    }
}

/// What [`parse`] makes of the UTF-8 bytes of a query.
pub open spec fn sql_parse_spec(b: Seq<u8>) -> Result<StmtV, SqlErrV> {
    match sql_lex_from(b, 0) {
        None => Err(SqlErrV::Parse),
        Some(t) => if t.len() == 0 {
            Err(SqlErrV::Parse)
        } else {
            stmt_at(t)
        },
    }
}

pub open spec fn sql_err_v(e: TsSqlError) -> SqlErrV {
    match e {
        TsSqlError::Unsupported(k) => SqlErrV::Unsupported(k@),
        _ => SqlErrV::Parse,
    }
}

// ---------- parser ----------

/// An `Int` literal at the top of an expression is above `i64::MIN`, so
/// its sign can be flipped.
pub open spec fn top_int_ok(e: SqlExpr) -> bool {
    match e {
        SqlExpr::Literal(SqlLiteral::Int(v)) => v > i64::MIN,
        _ => true,
    }
}

fn sql_kind_of(t: &Vec<SqlToken>, i: usize) -> (k: Option<SqlTokKind>)
    ensures
        k == sql_kind_at(sql_toks_v(t@), i as int),
        k is Some ==> i < t@.len(),
        t@.len() <= usize::MAX,
{
    if i < t.len() {
        Some(t[i].kind)
    } else {
        None
    }
}

/// Is token `i` the keyword `kw` (given in lower case), in any letter case?
fn kw_is(t: &Vec<SqlToken>, i: usize, kw: &str) -> (b: bool)
    ensures
        b == kw_at(sql_toks_v(t@), i as int, kw@),
        b ==> i < t@.len(),
        t@.len() <= usize::MAX,
{
    if i < t.len() && t[i].kind == SqlTokKind::Word {
        let l = ascii_lower_string(t[i].text.as_str());
        str_eq(l.as_str(), kw)
    } else {
        false
    }
}

fn is_reserved_exec(w: &str) -> (b: bool)
    ensures
        b == is_reserved(w@),
{
    let l = ascii_lower_string(w);
    str_eq(l.as_str(), "select")
    || str_eq(l.as_str(), "from")
    || str_eq(l.as_str(), "where")
    || str_eq(l.as_str(), "group")
    || str_eq(l.as_str(), "by")
    || str_eq(l.as_str(), "order")
    || str_eq(l.as_str(), "limit")
    || str_eq(l.as_str(), "as")
    || str_eq(l.as_str(), "and")
    || str_eq(l.as_str(), "or")
    || str_eq(l.as_str(), "not")
    || str_eq(l.as_str(), "case")
    || str_eq(l.as_str(), "when")
    || str_eq(l.as_str(), "then")
    || str_eq(l.as_str(), "else")
    || str_eq(l.as_str(), "end")
    || str_eq(l.as_str(), "asc")
    || str_eq(l.as_str(), "desc")
    || str_eq(l.as_str(), "having")
    || str_eq(l.as_str(), "join")
}

fn agg_of_exec(w: &str) -> (r: Option<AggFunc>)
    ensures
        r == agg_of_word(w@),
{
    let l = ascii_lower_string(w);
    if str_eq(l.as_str(), "sum") {
        Some(AggFunc::Sum)
    } else if str_eq(l.as_str(), "avg") {
        Some(AggFunc::Avg)
    } else if str_eq(l.as_str(), "min") {
        Some(AggFunc::Min)
    } else if str_eq(l.as_str(), "max") {
        Some(AggFunc::Max)
    } else if str_eq(l.as_str(), "count") {
        Some(AggFunc::Count)
    } else {
        None
    }
}

/// The value of a non-empty run of decimal digits that fits `u64`.
fn digits_u64(c: &Vec<char>) -> (r: Option<u64>)
    ensures
        r is Some <==> (c@.len() > 0 && all_digits(c@) && digits_num(c@) <= u64::MAX),
        r matches Some(v) ==> v == digits_num(c@),
{
    let n = c.len();
    if n == 0 {
        return None;
    }
    let mut v: u64 = 0;
    let mut big = false;
    let mut i: usize = 0;
    while i < n
        invariant
            i <= n == c@.len(),
            all_digits(c@.take(i as int)),
            !big ==> v == digits_num(c@.take(i as int)),
            big ==> digits_num(c@.take(i as int)) > u64::MAX,
            digits_num(c@.take(i as int)) >= 0,
        decreases n - i,
    {
        let ch = c[i];
        assert(c@.take(i + 1).drop_last() =~= c@.take(i as int));
        if !('0' <= ch && ch <= '9') {
            assert(!all_digits(c@));
            return None;
        }
        let d = (ch as u32 - 48) as u64;
        if !big {
            if v > (u64::MAX - d) / 10 {
                big = true;
            } else {
                v = v * 10 + d;
            }
        }
        i = i + 1;
    }
    assert(c@.take(n as int) =~= c@);
    if big {
        None
    } else {
        Some(v)
    }
}

fn number_lit_exec(w: &str) -> (r: Option<SqlLiteral>)
    ensures
        r is Some <==> number_lit(w@) is Some,
        r matches Some(l) ==> lit_v(l) == number_lit(w@)->0 && top_int_ok(SqlExpr::Literal(l)),
{
    let c = str_chars(w);
    match digits_u64(&c) {
        Some(v) => {
            if v <= 9_223_372_036_854_775_807u64 {
                let n = v as i64;
                assert(n as int == digits_num(w@));
                assert(number_lit(w@) == Some(LitV::Int(digits_num(w@))));
                return Some(SqlLiteral::Int(n));
            }
        },
        None => {},
    }
    assert(!(w@.len() > 0 && all_digits(w@) && digits_num(w@) <= i64::MAX));
    if float_text_exec(&c) {
        Some(SqlLiteral::Num(w.to_owned()))
    } else {
        None
    }
}

/// Unary minus: a literal number takes the sign, anything else is `0 - x`.
fn negate(inner: SqlExpr) -> (r: SqlExpr)
    requires
        top_int_ok(inner),
    ensures
        sql_expr_v(r) == negate_v(sql_expr_v(inner)),
        top_int_ok(r),
{
    match inner {
        SqlExpr::Literal(SqlLiteral::Int(n)) => {
            let m: i64 = 0 - n;
            SqlExpr::Literal(SqlLiteral::Int(m))
        },
        SqlExpr::Literal(SqlLiteral::Num(w)) => {
            let c = str_chars(w.as_str());
            let n = c.len();
            if n > 0 && c[0] == '-' {
                let t = crate::text::string_from_chars(&c, 1, n);
                assert(c@.subrange(1, n as int) =~= w@.skip(1));
                SqlExpr::Literal(SqlLiteral::Num(t))
            } else {
                let mut t = String::new();
                string_push(&mut t, '-');
                let mut i: usize = 0;
                while i < n
                    invariant
                        i <= n == c@.len(),
                        c@ == w@,
                        t@ == seq!['-'] + c@.take(i as int),
                    decreases n - i,
                {
                    string_push(&mut t, c[i]);
                    assert(seq!['-'] + c@.take(i + 1) =~= (seq!['-'] + c@.take(i as int)).push(
                        c@[i as int],
                    ));
                    i = i + 1;
                }
                assert(c@.take(n as int) =~= c@);
                SqlExpr::Literal(SqlLiteral::Num(t))
            }
        },
        other => {
            let r = SqlExpr::Arith(
                ArithOp::Sub,
                Box::new(SqlExpr::Literal(SqlLiteral::Int(0))),
                Box::new(other),
            );
            assert(!(sql_expr_v(other) matches SqlExprV::Lit(LitV::Int(_))));
            assert(!(sql_expr_v(other) matches SqlExprV::Lit(LitV::Num(_))));
            assert(sql_expr_v(SqlExpr::Literal(SqlLiteral::Int(0))) == SqlExprV::Lit(LitV::Int(0)));
            r
        },
    }
}

fn sql_err<A>(msg: &str) -> (r: Result<A, TsSqlError>)
    ensures
        r matches Err(e) && e is Parse,
{
    Err(TsSqlError::Parse(msg.to_string()))
}

fn parse_or(t: &Vec<SqlToken>, pos: usize) -> (r: Result<(SqlExpr, usize), TsSqlError>)
    requires
        pos <= t@.len(),
    ensures
        match r {
            Ok((e, p)) => or_at(sql_toks_v(t@), pos as int) == Some((sql_expr_v(e), p as int))
                && pos < p <= t@.len() && top_int_ok(e),
            Err(x) => x is Parse && or_at(sql_toks_v(t@), pos as int) is None,
        },
    decreases t@.len() - pos, 8int,
{
    let ghost tv = sql_toks_v(t@);
    let (l, p2) = parse_and(t, pos)?;
    let mut lhs = l;
    let mut p = p2;
    loop
        invariant
            pos < p <= t@.len(),
            tv == sql_toks_v(t@),
            or_at(tv, pos as int) == or_rest_at(tv, sql_expr_v(lhs), p as int),
            top_int_ok(lhs),
        decreases t@.len() - p,
    {
        if !kw_is(t, p, "or") {
            return Ok((lhs, p));
        }
        let (rhs, p3) = parse_and(t, p + 1)?;
        lhs = SqlExpr::Or(Box::new(lhs), Box::new(rhs));
        p = p3;
    }
}

fn parse_and(t: &Vec<SqlToken>, pos: usize) -> (r: Result<(SqlExpr, usize), TsSqlError>)
    requires
        pos <= t@.len(),
    ensures
        match r {
            Ok((e, p)) => and_at(sql_toks_v(t@), pos as int) == Some((sql_expr_v(e), p as int))
                && pos < p <= t@.len() && top_int_ok(e),
            Err(x) => x is Parse && and_at(sql_toks_v(t@), pos as int) is None,
        },
    decreases t@.len() - pos, 7int,
{
    let ghost tv = sql_toks_v(t@);
    let (l, p2) = parse_not(t, pos)?;
    let mut lhs = l;
    let mut p = p2;
    loop
        invariant
            pos < p <= t@.len(),
            tv == sql_toks_v(t@),
            and_at(tv, pos as int) == and_rest_at(tv, sql_expr_v(lhs), p as int),
            top_int_ok(lhs),
        decreases t@.len() - p,
    {
        if !kw_is(t, p, "and") {
            return Ok((lhs, p));
        }
        let (rhs, p3) = parse_not(t, p + 1)?;
        lhs = SqlExpr::And(Box::new(lhs), Box::new(rhs));
        p = p3;
    }
}

fn parse_not(t: &Vec<SqlToken>, pos: usize) -> (r: Result<(SqlExpr, usize), TsSqlError>)
    requires
        pos <= t@.len(),
    ensures
        match r {
            Ok((e, p)) => not_at(sql_toks_v(t@), pos as int) == Some((sql_expr_v(e), p as int))
                && pos < p <= t@.len() && top_int_ok(e),
            Err(x) => x is Parse && not_at(sql_toks_v(t@), pos as int) is None,
        },
    decreases t@.len() - pos, 6int,
{
    if kw_is(t, pos, "not") {
        let (inner, p2) = parse_not(t, pos + 1)?;
        Ok((SqlExpr::Not(Box::new(inner)), p2))
    } else {
        parse_relation(t, pos)
    }
}

fn parse_relation(t: &Vec<SqlToken>, pos: usize) -> (r: Result<(SqlExpr, usize), TsSqlError>)
    requires
        pos <= t@.len(),
    ensures
        match r {
            Ok((e, p)) => relation_at(sql_toks_v(t@), pos as int) == Some((sql_expr_v(e), p as int))
                && pos < p <= t@.len() && top_int_ok(e),
            Err(x) => x is Parse && relation_at(sql_toks_v(t@), pos as int) is None,
        },
    decreases t@.len() - pos, 5int,
{
    let (lhs, p2) = parse_sum(t, pos)?;
    if p2 >= t.len() {
        return Ok((lhs, p2));
    }
    let op = match t[p2].kind {
        SqlTokKind::Eq => CmpOp::Eq,
        SqlTokKind::Ne => CmpOp::Ne,
        SqlTokKind::Lt => CmpOp::Lt,
        SqlTokKind::Le => CmpOp::Le,
        SqlTokKind::Gt => CmpOp::Gt,
        SqlTokKind::Ge => CmpOp::Ge,
        _ => {
            return Ok((lhs, p2));
        },
    };
    let (rhs, p3) = parse_sum(t, p2 + 1)?;
    Ok((SqlExpr::Compare(op, Box::new(lhs), Box::new(rhs)), p3))
}

fn parse_sum(t: &Vec<SqlToken>, pos: usize) -> (r: Result<(SqlExpr, usize), TsSqlError>)
    requires
        pos <= t@.len(),
    ensures
        match r {
            Ok((e, p)) => sum_at(sql_toks_v(t@), pos as int) == Some((sql_expr_v(e), p as int))
                && pos < p <= t@.len() && top_int_ok(e),
            Err(x) => x is Parse && sum_at(sql_toks_v(t@), pos as int) is None,
        },
    decreases t@.len() - pos, 4int,
{
    let ghost tv = sql_toks_v(t@);
    let (l, p2) = parse_prod(t, pos)?;
    let mut lhs = l;
    let mut p = p2;
    loop
        invariant
            pos < p <= t@.len(),
            tv == sql_toks_v(t@),
            sum_at(tv, pos as int) == sum_rest_at(tv, sql_expr_v(lhs), p as int),
            top_int_ok(lhs),
        decreases t@.len() - p,
    {
        if p >= t.len() {
            return Ok((lhs, p));
        }
        let op = match t[p].kind {
            SqlTokKind::Plus => ArithOp::Add,
            SqlTokKind::Minus => ArithOp::Sub,
            _ => {
                return Ok((lhs, p));
            },
        };
        let (rhs, p3) = parse_prod(t, p + 1)?;
        lhs = SqlExpr::Arith(op, Box::new(lhs), Box::new(rhs));
        p = p3;
    }
}

fn parse_prod(t: &Vec<SqlToken>, pos: usize) -> (r: Result<(SqlExpr, usize), TsSqlError>)
    requires
        pos <= t@.len(),
    ensures
        match r {
            Ok((e, p)) => prod_at(sql_toks_v(t@), pos as int) == Some((sql_expr_v(e), p as int))
                && pos < p <= t@.len() && top_int_ok(e),
            Err(x) => x is Parse && prod_at(sql_toks_v(t@), pos as int) is None,
        },
    decreases t@.len() - pos, 3int,
{
    let ghost tv = sql_toks_v(t@);
    let (l, p2) = parse_factor(t, pos)?;
    let mut lhs = l;
    let mut p = p2;
    loop
        invariant
            pos < p <= t@.len(),
            tv == sql_toks_v(t@),
            prod_at(tv, pos as int) == prod_rest_at(tv, sql_expr_v(lhs), p as int),
            top_int_ok(lhs),
        decreases t@.len() - p,
    {
        if p >= t.len() {
            return Ok((lhs, p));
        }
        let op = match t[p].kind {
            SqlTokKind::Star => ArithOp::Mul,
            SqlTokKind::Slash => ArithOp::Div,
            _ => {
                return Ok((lhs, p));
            },
        };
        let (rhs, p3) = parse_factor(t, p + 1)?;
        lhs = SqlExpr::Arith(op, Box::new(lhs), Box::new(rhs));
        p = p3;
    }
}

fn parse_factor(t: &Vec<SqlToken>, pos: usize) -> (r: Result<(SqlExpr, usize), TsSqlError>)
    requires
        pos <= t@.len(),
    ensures
        match r {
            Ok((e, p)) => factor_at(sql_toks_v(t@), pos as int) == Some((sql_expr_v(e), p as int))
                && pos < p <= t@.len() && top_int_ok(e),
            Err(x) => x is Parse && factor_at(sql_toks_v(t@), pos as int) is None,
        },
    decreases t@.len() - pos, 2int,
{
    if pos >= t.len() {
        return sql_err("unexpected end of query where an expression was expected");
    }
    let k = t[pos].kind;
    match k {
        SqlTokKind::Num => match number_lit_exec(t[pos].text.as_str()) {
            Some(l) => Ok((SqlExpr::Literal(l), pos + 1)),
            None => sql_err("bad numeric literal"),
        },
        SqlTokKind::Str => Ok((SqlExpr::Literal(SqlLiteral::Str(t[pos].text.clone())), pos + 1)),
        SqlTokKind::Minus => {
            let (inner, p2) = parse_factor(t, pos + 1)?;
            Ok((negate(inner), p2))
        },
        SqlTokKind::LParen => {
            let (inner, p2) = parse_or(t, pos + 1)?;
            if sql_kind_of(t, p2) == Some(SqlTokKind::RParen) {
                Ok((inner, p2 + 1))
            } else {
                sql_err("expected )")
            }
        },
        SqlTokKind::Word => {
            let w = t[pos].text.as_str();
            let l = ascii_lower_string(w);
            if str_eq(l.as_str(), "case") {
                return parse_case(t, pos);
            }
            match agg_of_exec(w) {
                Some(f) => {
                    return parse_call(t, f, pos + 1);
                },
                None => {},
            }
            if is_reserved_exec(w) {
                sql_err("reserved keyword in expression position")
            } else {
                Ok((SqlExpr::Column(t[pos].text.clone()), pos + 1))
            }
        },
        _ => sql_err("unexpected token where an expression was expected"),
    }
}

fn parse_case(t: &Vec<SqlToken>, pos: usize) -> (r: Result<(SqlExpr, usize), TsSqlError>)
    requires
        pos < t@.len(),
    ensures
        match r {
            Ok((e, p)) => case_at(sql_toks_v(t@), pos as int) == Some((sql_expr_v(e), p as int))
                && pos < p <= t@.len() && top_int_ok(e),
            Err(x) => x is Parse && case_at(sql_toks_v(t@), pos as int) is None,
        },
    decreases t@.len() - pos, 1int,
{
    let n = t.len();
    if pos + 1 >= n || !kw_is(t, pos + 1, "when") {
        return sql_err("expected WHEN after CASE");
    }
    let (w, p1) = parse_or(t, pos + 2)?;
    if !kw_is(t, p1, "then") {
        return sql_err("expected THEN");
    }
    let (th, p2) = parse_sum(t, p1 + 1)?;
    if !kw_is(t, p2, "else") {
        return sql_err("expected ELSE");
    }
    let (el, p3) = parse_sum(t, p2 + 1)?;
    if !kw_is(t, p3, "end") {
        return sql_err("expected END");
    }
    Ok((SqlExpr::Case { when: Box::new(w), then: Box::new(th), otherwise: Box::new(el) }, p3 + 1))
}

fn parse_call(t: &Vec<SqlToken>, f: AggFunc, pos: usize) -> (r: Result<(SqlExpr, usize), TsSqlError>)
    requires
        0 < pos <= t@.len(),
    ensures
        match r {
            Ok((e, p)) => call_at(sql_toks_v(t@), f, pos as int) == Some((sql_expr_v(e), p as int))
                && pos < p <= t@.len() && top_int_ok(e),
            Err(x) => x is Parse && call_at(sql_toks_v(t@), f, pos as int) is None,
        },
    decreases t@.len() - pos, 1int,
{
    if sql_kind_of(t, pos) != Some(SqlTokKind::LParen) {
        return sql_err("expected ( after aggregate");
    }
    if sql_kind_of(t, pos + 1) == Some(SqlTokKind::Star) {
        if sql_kind_of(t, pos + 2) != Some(SqlTokKind::RParen) {
            return sql_err("expected )");
        }
        match f {
            AggFunc::Count => {},
            _ => {
                return sql_err("only COUNT supports a * argument");
            },
        }
        return Ok((SqlExpr::Aggregate { func: f, arg: None }, pos + 3));
    }
    let (arg, p2) = parse_sum(t, pos + 1)?;
    if arg.contains_aggregate() {
        return sql_err("an aggregate may not nest inside another aggregate");
    }
    if sql_kind_of(t, p2) != Some(SqlTokKind::RParen) {
        return sql_err("expected )");
    }
    Ok((SqlExpr::Aggregate { func: f, arg: Some(Box::new(arg)) }, p2 + 1))
}

fn parse_ident(t: &Vec<SqlToken>, i: usize) -> (r: Result<(String, usize), TsSqlError>)
    ensures
        match r {
            Ok((w, p)) => ident_at(sql_toks_v(t@), i as int) == Some((w@, p as int)) && i < p
                <= t@.len(),
            Err(e) => e is Parse && ident_at(sql_toks_v(t@), i as int) is None,
        },
{
    if i < t.len() && t[i].kind == SqlTokKind::Word {
        if is_reserved_exec(t[i].text.as_str()) {
            sql_err("reserved keyword used where an identifier was expected")
        } else {
            Ok((t[i].text.clone(), i + 1))
        }
    } else {
        sql_err("expected identifier")
    }
}

fn derive_alias_exec(e: &SqlExpr, index: usize) -> (s: String)
    ensures
        s@ == derive_alias(sql_expr_v(*e), index as nat),
{
    match e {
        SqlExpr::Column(name) => name.clone(),
        _ => {
            let mut s = "col_".to_owned();
            push_u64_dec(&mut s, index as u64);
            s
        },
    }
}

fn parse_projection(t: &Vec<SqlToken>, pos: usize) -> (r: Result<(Vec<SelectItem>, usize), TsSqlError>)
    requires
        pos <= t@.len(),
    ensures
        match r {
            Ok((items, p)) => proj_at(sql_toks_v(t@), pos as int, Seq::empty()) == Some(
                (items@.map_values(|i: SelectItem| item_v(i)), p as int),
            ) && pos < p <= t@.len(),
            Err(e) => e is Parse && proj_at(sql_toks_v(t@), pos as int, Seq::empty()) is None,
        },
{
    let ghost tv = sql_toks_v(t@);
    let mut items: Vec<SelectItem> = Vec::new();
    let mut p = pos;
    assert(items@.map_values(|i: SelectItem| item_v(i)) =~= Seq::<ItemV>::empty());
    loop
        invariant_except_break
            pos <= p <= t@.len(),
            proj_at(tv, pos as int, Seq::empty()) == proj_at(
                tv,
                p as int,
                items@.map_values(|i: SelectItem| item_v(i)),
            ),
        invariant
            tv == sql_toks_v(t@),
        ensures
            pos < p <= t@.len(),
            proj_at(tv, pos as int, Seq::empty()) == Some(
                (items@.map_values(|i: SelectItem| item_v(i)), p as int),
            ),
        decreases t@.len() - p,
    {
        let ghost acc = items@.map_values(|i: SelectItem| item_v(i));
        let (item, p1) = if sql_kind_of(t, p) == Some(SqlTokKind::Star) {
            (SelectItem::Star, p + 1)
        } else {
            let (e, p2) = parse_sum(t, p)?;
            if kw_is(t, p2, "as") {
                let (a, p3) = parse_ident(t, p2 + 1)?;
                (SelectItem::Expr { expr: e, alias: a }, p3)
            } else {
                let alias = derive_alias_exec(&e, items.len());
                (SelectItem::Expr { expr: e, alias }, p2)
            }
        };
        let ghost it = item_v(item);
        items.push(item);
        proof {
            assert(items@.map_values(|i: SelectItem| item_v(i)) =~= acc.push(it));
        }
        if sql_kind_of(t, p1) == Some(SqlTokKind::Comma) {
            p = p1 + 1;
        } else {
            p = p1;
            break;
        }
    }
    Ok((items, p))
}

fn parse_columns(t: &Vec<SqlToken>, pos: usize) -> (r: Result<(Vec<String>, usize), TsSqlError>)
    requires
        pos <= t@.len(),
    ensures
        match r {
            Ok((cols, p)) => cols_at(sql_toks_v(t@), pos as int, Seq::empty()) == Some(
                (cols@.map_values(|c: String| c@), p as int),
            ) && pos < p <= t@.len(),
            Err(e) => e is Parse && cols_at(sql_toks_v(t@), pos as int, Seq::empty()) is None,
        },
{
    let ghost tv = sql_toks_v(t@);
    let mut cols: Vec<String> = Vec::new();
    let mut p = pos;
    assert(cols@.map_values(|c: String| c@) =~= Seq::<Seq<char>>::empty());
    loop
        invariant_except_break
            pos <= p <= t@.len(),
            cols_at(tv, pos as int, Seq::empty()) == cols_at(
                tv,
                p as int,
                cols@.map_values(|c: String| c@),
            ),
        invariant
            tv == sql_toks_v(t@),
        ensures
            pos < p <= t@.len(),
            cols_at(tv, pos as int, Seq::empty()) == Some(
                (cols@.map_values(|c: String| c@), p as int),
            ),
        decreases t@.len() - p,
    {
        let ghost acc = cols@.map_values(|c: String| c@);
        let (c, p1) = parse_ident(t, p)?;
        let ghost cv = c@;
        cols.push(c);
        proof {
            assert(cols@.map_values(|c: String| c@) =~= acc.push(cv));
        }
        if sql_kind_of(t, p1) == Some(SqlTokKind::Comma) {
            p = p1 + 1;
        } else {
            p = p1;
            break;
        }
    }
    Ok((cols, p))
}

fn parse_order_keys(t: &Vec<SqlToken>, pos: usize) -> (r: Result<(Vec<OrderKey>, usize), TsSqlError>)
    requires
        pos <= t@.len(),
    ensures
        match r {
            Ok((keys, p)) => keys_at(sql_toks_v(t@), pos as int, Seq::empty()) == Some(
                (keys@.map_values(|k: OrderKey| (k.column@, k.ascending)), p as int),
            ) && pos < p <= t@.len(),
            Err(e) => e is Parse && keys_at(sql_toks_v(t@), pos as int, Seq::empty()) is None,
        },
{
    let ghost tv = sql_toks_v(t@);
    let mut keys: Vec<OrderKey> = Vec::new();
    let mut p = pos;
    assert(keys@.map_values(|k: OrderKey| (k.column@, k.ascending)) =~= Seq::<
        (Seq<char>, bool),
    >::empty());
    loop
        invariant_except_break
            pos <= p <= t@.len(),
            keys_at(tv, pos as int, Seq::empty()) == keys_at(
                tv,
                p as int,
                keys@.map_values(|k: OrderKey| (k.column@, k.ascending)),
            ),
        invariant
            tv == sql_toks_v(t@),
        ensures
            pos < p <= t@.len(),
            keys_at(tv, pos as int, Seq::empty()) == Some(
                (keys@.map_values(|k: OrderKey| (k.column@, k.ascending)), p as int),
            ),
        decreases t@.len() - p,
    {
        let ghost acc = keys@.map_values(|k: OrderKey| (k.column@, k.ascending));
        let (column, p1) = parse_ident(t, p)?;
        let (ascending, p2) = if kw_is(t, p1, "desc") {
            (false, p1 + 1)
        } else if kw_is(t, p1, "asc") {
            (true, p1 + 1)
        } else {
            (true, p1)
        };
        let ghost kv = (column@, ascending);
        keys.push(OrderKey { column, ascending });
        proof {
            assert(keys@.map_values(|k: OrderKey| (k.column@, k.ascending)) =~= acc.push(kv));
        }
        if sql_kind_of(t, p2) == Some(SqlTokKind::Comma) {
            p = p2 + 1;
        } else {
            p = p2;
            break;
        }
    }
    Ok((keys, p))
}

fn parse_limit(t: &Vec<SqlToken>, i: usize) -> (r: Result<(usize, usize), TsSqlError>)
    ensures
        match r {
            Ok((n, p)) => limit_at(sql_toks_v(t@), i as int) == Some((n as nat, p as int)) && i < p
                <= t@.len(),
            Err(e) => e is Parse && limit_at(sql_toks_v(t@), i as int) is None,
        },
{
    if i < t.len() && t[i].kind == SqlTokKind::Num {
        let c = str_chars(t[i].text.as_str());
        match digits_u64(&c) {
            Some(v) => {
                if v <= usize::MAX as u64 {
                    return Ok((v as usize, i + 1));
                }
            },
            None => {},
        }
    }
    sql_err("LIMIT expects a non-negative integer")
}

fn unsupported<A>(clause: &str) -> (r: Result<A, TsSqlError>)
    ensures
        r matches Err(e) && e is Unsupported && sql_err_v(e) == SqlErrV::Unsupported(clause@),
{
    Err(TsSqlError::Unsupported(clause.to_owned()))
}

fn reject_join(t: &Vec<SqlToken>, p: usize) -> (r: Result<(), TsSqlError>)
    ensures
        match r {
            Ok(_) => join_at(sql_toks_v(t@), p as int) is None,
            Err(e) => e is Unsupported && join_at(sql_toks_v(t@), p as int) == Some(
                sql_err_v(e)->Unsupported_0,
            ),
        },
{
    if kw_is(t, p, "join") {
        return unsupported("JOIN");
    }
    if kw_is(t, p, "inner") {
        return unsupported("INNER");
    }
    if kw_is(t, p, "left") {
        return unsupported("LEFT");
    }
    if kw_is(t, p, "right") {
        return unsupported("RIGHT");
    }
    if kw_is(t, p, "full") {
        return unsupported("FULL");
    }
    if kw_is(t, p, "cross") {
        return unsupported("CROSS");
    }
    Ok(())
}

fn parse_where(t: &Vec<SqlToken>, p: usize) -> (r: Result<(Option<SqlExpr>, usize), TsSqlError>)
    requires
        p <= t@.len(),
    ensures
        match r {
            Ok((f, q)) => where_at(sql_toks_v(t@), p as int) == Some(
                (
                    match f {
                        Some(e) => Some(sql_expr_v(e)),
                        None => None,
                    },
                    q as int,
                ),
            ) && p <= q <= t@.len(),
            Err(e) => e is Parse && where_at(sql_toks_v(t@), p as int) is None,
        },
{
    if kw_is(t, p, "where") {
        let (e, q) = parse_or(t, p + 1)?;
        Ok((Some(e), q))
    } else {
        Ok((None, p))
    }
}

fn parse_group(t: &Vec<SqlToken>, p: usize) -> (r: Result<(Vec<String>, usize), TsSqlError>)
    requires
        p <= t@.len(),
    ensures
        match r {
            Ok((cols, q)) => group_at(sql_toks_v(t@), p as int) == Some(
                (cols@.map_values(|c: String| c@), q as int),
            ) && p <= q <= t@.len(),
            Err(e) => e is Parse && group_at(sql_toks_v(t@), p as int) is None,
        },
{
    if kw_is(t, p, "group") {
        if !kw_is(t, p + 1, "by") {
            return sql_err("expected keyword BY");
        }
        parse_columns(t, p + 2)
    } else {
        let cols: Vec<String> = Vec::new();
        assert(cols@.map_values(|c: String| c@) =~= Seq::<Seq<char>>::empty());
        Ok((cols, p))
    }
}

fn parse_order(t: &Vec<SqlToken>, p: usize) -> (r: Result<(Vec<OrderKey>, usize), TsSqlError>)
    requires
        p <= t@.len(),
    ensures
        match r {
            Ok((keys, q)) => order_at(sql_toks_v(t@), p as int) == Some(
                (keys@.map_values(|k: OrderKey| (k.column@, k.ascending)), q as int),
            ) && p <= q <= t@.len(),
            Err(e) => e is Parse && order_at(sql_toks_v(t@), p as int) is None,
        },
{
    if kw_is(t, p, "order") {
        if !kw_is(t, p + 1, "by") {
            return sql_err("expected keyword BY");
        }
        parse_order_keys(t, p + 2)
    } else {
        let keys: Vec<OrderKey> = Vec::new();
        assert(keys@.map_values(|k: OrderKey| (k.column@, k.ascending)) =~= Seq::<
            (Seq<char>, bool),
        >::empty());
        Ok((keys, p))
    }
}

fn parse_limit_clause(t: &Vec<SqlToken>, p: usize) -> (r: Result<(Option<usize>, usize), TsSqlError>)
    requires
        p <= t@.len(),
    ensures
        match r {
            Ok((l, q)) => limit_clause_at(sql_toks_v(t@), p as int) == Some(
                (
                    match l {
                        Some(n) => Some(n as nat),
                        None => None,
                    },
                    q as int,
                ),
            ) && p <= q <= t@.len(),
            Err(e) => e is Parse && limit_clause_at(sql_toks_v(t@), p as int) is None,
        },
{
    if kw_is(t, p, "limit") {
        let (n, q) = parse_limit(t, p + 1)?;
        Ok((Some(n), q))
    } else {
        Ok((None, p))
    }
}

/// Parse a whole token sequence as one `SELECT` statement.
fn parse_statement(t: &Vec<SqlToken>) -> (r: Result<TsSqlStmt, TsSqlError>)
    ensures
        match r {
            Ok(s) => stmt_at(sql_toks_v(t@)) == Ok::<StmtV, SqlErrV>(stmt_v(s)),
            Err(e) => (e is Parse || e is Unsupported) && stmt_at(sql_toks_v(t@)) == Err::<
                StmtV,
                SqlErrV,
            >(sql_err_v(e)),
        },
{
    let ghost tv = sql_toks_v(t@);
    if !kw_is(t, 0, "select") {
        return sql_err("expected keyword SELECT");
    }
    let (projection, p1) = parse_projection(t, 1)?;
    if !kw_is(t, p1, "from") {
        return sql_err("expected keyword FROM");
    }
    let (table, p2) = parse_ident(t, p1 + 1)?;
    reject_join(t, p2)?;
    let (filter, p3) = parse_where(t, p2)?;
    let (group_by, p4) = parse_group(t, p3)?;
    if kw_is(t, p4, "having") {
        return unsupported("HAVING");
    }
    let (order_by, p5) = parse_order(t, p4)?;
    let (limit, p6) = parse_limit_clause(t, p5)?;
    if p6 != t.len() {
        return sql_err("trailing tokens after statement");
    }
    Ok(TsSqlStmt { projection, table, filter, group_by, order_by, limit })
}

/// Parse a SQL string into a [`TsSqlStmt`]. The whole string must be one
/// well-formed `SELECT`; trailing tokens are a `Parse` error, and a join or
/// a `HAVING` clause is `Unsupported`, naming it.
pub fn parse(sql: &str) -> (r: Result<TsSqlStmt, TsSqlError>)
    ensures
        match r {
            Ok(s) => sql_parse_spec(vstd::utf8::encode_utf8(sql@)) == Ok::<StmtV, SqlErrV>(
                stmt_v(s),
            ),
            Err(e) => (e is Parse || e is Unsupported) && sql_parse_spec(
                vstd::utf8::encode_utf8(sql@),
            ) == Err::<StmtV, SqlErrV>(sql_err_v(e)),
        },
{
    let toks = sql_tokenize(sql)?;
    if toks.len() == 0 {
        return sql_err("empty query");
    }
    parse_statement(&toks)
}


/// A comparison token between two sums compares them with the operator it
/// spells: `<` gives `Lt`, `<=` gives `Le`, `>` gives `Gt`, `>=` gives
/// `Ge`, `=` gives `Eq` and `!=` gives `Ne`, with the left sum first.
pub proof fn lemma_comparison_token_operator(
    t: Seq<SqlTokV>,
    pos: int,
    l: SqlExprV,
    p2: int,
    r: SqlExprV,
    p3: int,
)
    requires
        sum_at(t, pos) == Some((l, p2)),
        pos < p2 < t.len(),
        sum_at(t, p2 + 1) == Some((r, p3)),
    ensures
        t[p2].0 == SqlTokKind::Lt ==> relation_at(t, pos) == Some(
            (SqlExprV::Compare(CmpOp::Lt, Box::new(l), Box::new(r)), p3),
        ),
        t[p2].0 == SqlTokKind::Le ==> relation_at(t, pos) == Some(
            (SqlExprV::Compare(CmpOp::Le, Box::new(l), Box::new(r)), p3),
        ),
        t[p2].0 == SqlTokKind::Gt ==> relation_at(t, pos) == Some(
            (SqlExprV::Compare(CmpOp::Gt, Box::new(l), Box::new(r)), p3),
        ),
        t[p2].0 == SqlTokKind::Ge ==> relation_at(t, pos) == Some(
            (SqlExprV::Compare(CmpOp::Ge, Box::new(l), Box::new(r)), p3),
        ),
        t[p2].0 == SqlTokKind::Eq ==> relation_at(t, pos) == Some(
            (SqlExprV::Compare(CmpOp::Eq, Box::new(l), Box::new(r)), p3),
        ),
        t[p2].0 == SqlTokKind::Ne ==> relation_at(t, pos) == Some(
            (SqlExprV::Compare(CmpOp::Ne, Box::new(l), Box::new(r)), p3),
        ),
{
}


/// Each comparison operator lexes as the token it spells: at a `<`
/// (byte 60) the lexer reads `<=` as `Le`, `<>` as `Ne` and a lone `<` as
/// `Lt`; at a `>` (byte 62) it reads `>=` as `Ge` and a lone `>` as `Gt`;
/// `!=` (bytes 33, 61) is `Ne` and `=` (byte 61) is `Eq`.
pub proof fn lemma_comparison_operator_lexes(b: Seq<u8>, p: int)
    requires
        0 <= p < b.len(),
    ensures
        b[p] == 60 && p + 1 < b.len() && b[p + 1] == 61 ==> sql_lex_at(b, p) == Some(
            (SqlTokKind::Le, Seq::<char>::empty(), p + 2),
        ),
        b[p] == 60 && p + 1 < b.len() && b[p + 1] == 62 ==> sql_lex_at(b, p) == Some(
            (SqlTokKind::Ne, Seq::<char>::empty(), p + 2),
        ),
        b[p] == 60 && (p + 1 == b.len() || (b[p + 1] != 61 && b[p + 1] != 62)) ==> sql_lex_at(
            b,
            p,
        ) == Some((SqlTokKind::Lt, Seq::<char>::empty(), p + 1)),
        b[p] == 62 && p + 1 < b.len() && b[p + 1] == 61 ==> sql_lex_at(b, p) == Some(
            (SqlTokKind::Ge, Seq::<char>::empty(), p + 2),
        ),
        b[p] == 62 && (p + 1 == b.len() || b[p + 1] != 61) ==> sql_lex_at(b, p) == Some(
            (SqlTokKind::Gt, Seq::<char>::empty(), p + 1),
        ),
        b[p] == 33 && p + 1 < b.len() && b[p + 1] == 61 ==> sql_lex_at(b, p) == Some(
            (SqlTokKind::Ne, Seq::<char>::empty(), p + 2),
        ),
        b[p] == 61 ==> sql_lex_at(b, p) == Some((SqlTokKind::Eq, Seq::<char>::empty(), p + 1)),
{
}

} // verus!
