//! What is decided about a parsed statement before its clauses are lowered
//! onto the frame operators: every column it names must exist in the source
//! (an `ORDER BY` key may instead name an output alias), whether it is an
//! aggregate query, and the output columns of a row-wise query.

use vstd::prelude::*;

use crate::sql::{has_agg, sql_expr_v, stmt_v, ItemV, SelectItem, SqlExpr, SqlExprV, TsSqlError, TsSqlStmt};
use crate::text::{push_text, str_eq};

verus! {

/// The columns an expression reads, left to right.
pub open spec fn expr_columns(e: SqlExprV) -> Seq<Seq<char>>
    decreases e,
{
    match e {
        SqlExprV::Column(c) => seq![c],
        SqlExprV::Lit(_) => Seq::empty(),
        SqlExprV::Arith(_, a, b) => expr_columns(*a) + expr_columns(*b),
        SqlExprV::Compare(_, a, b) => expr_columns(*a) + expr_columns(*b),
        SqlExprV::And(a, b) => expr_columns(*a) + expr_columns(*b),
        SqlExprV::Or(a, b) => expr_columns(*a) + expr_columns(*b),
        SqlExprV::Not(a) => expr_columns(*a),
        SqlExprV::Case(w, t, o) => expr_columns(*w) + expr_columns(*t) + expr_columns(*o),
        SqlExprV::Agg(_, arg) => match arg {
            Some(a) => expr_columns(*a),
            None => Seq::empty(),
        },
    }
}

/// The first of `names` that is not among `known`.
pub open spec fn first_unknown(names: Seq<Seq<char>>, known: Seq<Seq<char>>) -> Option<Seq<char>>
    decreases names.len(),
{
    if names.len() == 0 {
        None
    } else if known.contains(names[0]) {
        first_unknown(names.drop_first(), known)
    } else {
        Some(names[0])
    }
}

/// The names of a list of columns.
pub open spec fn names_of(cols: Seq<String>) -> Seq<Seq<char>> {
    cols.map_values(|c: String| c@)
}

/// Some projection item is named `name`.
pub open spec fn output_alias(items: Seq<ItemV>, name: Seq<char>) -> bool {
    exists|i: int| 0 <= i < items.len() && (#[trigger] items[i] matches ItemV::Expr(_, a) && a == name)
}

/// The columns the projection list reads, item by item.
pub open spec fn projection_columns(items: Seq<ItemV>) -> Seq<Seq<char>>
    decreases items.len(),
{
    if items.len() == 0 {
        Seq::empty()
    } else {
        projection_columns(items.drop_last()) + match items.last() {
            ItemV::Star => Seq::<Seq<char>>::empty(),
            ItemV::Expr(e, _) => expr_columns(e),
        }
    }
}

/// The `ORDER BY` keys that must be source columns: those that are not an
/// output alias.
pub open spec fn order_columns(keys: Seq<(Seq<char>, bool)>, items: Seq<ItemV>) -> Seq<Seq<char>>
    decreases keys.len(),
{
    if keys.len() == 0 {
        Seq::empty()
    } else {
        order_columns(keys.drop_last(), items) + if output_alias(items, keys.last().0) {
            Seq::<Seq<char>>::empty()
        } else {
            seq![keys.last().0]
        }
    }
}

/// The columns the `WHERE` predicate reads (none without one).
pub open spec fn filter_columns(s: crate::sql::StmtV) -> Seq<Seq<char>> {
    match s.filter {
        Some(f) => expr_columns(f),
        None => Seq::empty(),
    }
}

/// Every column the statement requires of its source, in the order they are
/// checked: the projection, the filter, the `GROUP BY` keys, then the
/// `ORDER BY` keys that are not output aliases.
pub open spec fn required_columns(s: crate::sql::StmtV) -> Seq<Seq<char>> {
    projection_columns(s.projection) + filter_columns(s) + s.group_by + order_columns(
        s.order_by,
        s.projection,
    )
}

/// The first unknown of the requirement list, split over its parts.
proof fn lemma_required_split(s: crate::sql::StmtV, known: Seq<Seq<char>>)
    ensures
        first_unknown(required_columns(s), known) == match first_unknown(
            projection_columns(s.projection),
            known,
        ) {
            Some(x) => Some(x),
            None => match first_unknown(filter_columns(s), known) {
                Some(x) => Some(x),
                None => match first_unknown(s.group_by, known) {
                    Some(x) => Some(x),
                    None => first_unknown(order_columns(s.order_by, s.projection), known),
                },
            },
        },
{
    let p = projection_columns(s.projection);
    let f = filter_columns(s);
    let g = s.group_by;
    let o = order_columns(s.order_by, s.projection);
    lemma_first_unknown_concat(p + f + g, o, known);
    lemma_first_unknown_concat(p + f, g, known);
    lemma_first_unknown_concat(p, f, known);
}

proof fn lemma_first_unknown_concat(a: Seq<Seq<char>>, b: Seq<Seq<char>>, known: Seq<Seq<char>>)
    ensures
        first_unknown(a + b, known) == match first_unknown(a, known) {
            Some(x) => Some(x),
            None => first_unknown(b, known),
        },
    decreases a.len(),
{
    if a.len() == 0 {
        assert(a + b =~= b);
    } else {
        assert((a + b)[0] == a[0]);
        assert((a + b).drop_first() =~= a.drop_first() + b);
        lemma_first_unknown_concat(a.drop_first(), b, known);
    }
}

/// Is `name` one of `cols`?
fn has_column(cols: &[String], name: &str) -> (b: bool)
    ensures
        b == names_of(cols@).contains(name@),
{
    let mut i: usize = 0;
    while i < cols.len()
        invariant
            i <= cols@.len(),
            forall|k: int| 0 <= k < i ==> cols@[k]@ != name@,
        decreases cols@.len() - i,
    {
        if str_eq(cols[i].as_str(), name) {
            assert(names_of(cols@)[i as int] == name@);
            return true;
        }
        i = i + 1;
    }
    proof {
        if names_of(cols@).contains(name@) {
            let k = choose|k: int| 0 <= k < names_of(cols@).len() && names_of(cols@)[k] == name@;
            assert(cols@[k]@ == name@);
        }
    }
    false
}

/// The first column `e` reads that is not among `known`.
fn expr_first_unknown(e: &SqlExpr, known: &[String]) -> (r: Option<String>)
    ensures
        match r {
            Some(c) => first_unknown(expr_columns(sql_expr_v(*e)), names_of(known@)) == Some(c@),
            None => first_unknown(expr_columns(sql_expr_v(*e)), names_of(known@)) is None,
        },
    decreases e,
{
    let ghost kv = names_of(known@);
    match e {
        SqlExpr::Column(c) => {
            proof {
                assert(seq![c@].drop_first() =~= Seq::<Seq<char>>::empty());
            }
            if has_column(known, c.as_str()) {
                assert(first_unknown(seq![c@], kv) == first_unknown(seq![c@].drop_first(), kv));
                None
            } else {
                let n = c.clone();
                assert(first_unknown(seq![c@], kv) == Some(c@));
                Some(n)
            }
        },
        SqlExpr::Literal(_) => None,
        SqlExpr::Arith(_, a, b) => {
            proof {
                lemma_first_unknown_concat(expr_columns(sql_expr_v(**a)), expr_columns(sql_expr_v(**b)), kv);
            }
            let r = expr_first_unknown(a, known);
            if r.is_some() {
                r
            } else {
                expr_first_unknown(b, known)
            }
        },
        SqlExpr::Compare(_, a, b) => {
            proof {
                lemma_first_unknown_concat(expr_columns(sql_expr_v(**a)), expr_columns(sql_expr_v(**b)), kv);
            }
            let r = expr_first_unknown(a, known);
            if r.is_some() {
                r
            } else {
                expr_first_unknown(b, known)
            }
        },
        SqlExpr::And(a, b) => {
            proof {
                lemma_first_unknown_concat(expr_columns(sql_expr_v(**a)), expr_columns(sql_expr_v(**b)), kv);
            }
            let r = expr_first_unknown(a, known);
            if r.is_some() {
                r
            } else {
                expr_first_unknown(b, known)
            }
        },
        SqlExpr::Or(a, b) => {
            proof {
                lemma_first_unknown_concat(expr_columns(sql_expr_v(**a)), expr_columns(sql_expr_v(**b)), kv);
            }
            let r = expr_first_unknown(a, known);
            if r.is_some() {
                r
            } else {
                expr_first_unknown(b, known)
            }
        },
        SqlExpr::Not(a) => expr_first_unknown(a, known),
        SqlExpr::Case { when, then, otherwise } => {
            let ghost cw = expr_columns(sql_expr_v(**when));
            let ghost ct = expr_columns(sql_expr_v(**then));
            let ghost co = expr_columns(sql_expr_v(**otherwise));
            proof {
                lemma_first_unknown_concat(cw + ct, co, kv);
                lemma_first_unknown_concat(cw, ct, kv);
            }
            let r = expr_first_unknown(when, known);
            if r.is_some() {
                return r;
            }
            let r = expr_first_unknown(then, known);
            if r.is_some() {
                return r;
            }
            expr_first_unknown(otherwise, known)
        },
        SqlExpr::Aggregate { arg, .. } => match arg {
            Some(a) => expr_first_unknown(a, known),
            None => None,
        },
    }
}

impl TsSqlStmt {
    /// Does some projection item carry the output name `name`?
    pub fn is_output_alias(&self, name: &str) -> (b: bool)
        ensures
            b == output_alias(stmt_v(*self).projection, name@),
    {
        let ghost items = stmt_v(*self).projection;
        let mut i: usize = 0;
        while i < self.projection.len()
            invariant
                i <= self.projection@.len(),
                items == stmt_v(*self).projection,
                items.len() == self.projection@.len(),
                forall|k: int| 0 <= k < i ==> !(#[trigger] items[k] matches ItemV::Expr(_, a) && a == name@),
            decreases self.projection@.len() - i,
        {
            match &self.projection[i] {
                SelectItem::Star => {},
                SelectItem::Expr { alias, .. } => {
                    if str_eq(alias.as_str(), name) {
                        assert(items[i as int] matches ItemV::Expr(_, a) && a == name@);
                        return true;
                    }
                },
            }
            i = i + 1;
        }
        false
    }

    /// Does any projection item contain an aggregate call? Together with a
    /// `GROUP BY` clause, this makes the statement an aggregate query.
    pub fn projection_has_aggregate(&self) -> (b: bool)
        ensures
            b == exists|i: int|
                0 <= i < stmt_v(*self).projection.len() && (
                #[trigger] stmt_v(*self).projection[i] matches ItemV::Expr(e, _) && has_agg(e)),
    {
        let ghost items = stmt_v(*self).projection;
        let mut i: usize = 0;
        while i < self.projection.len()
            invariant
                i <= self.projection@.len(),
                items == stmt_v(*self).projection,
                items.len() == self.projection@.len(),
                forall|k: int| 0 <= k < i ==> !(#[trigger] items[k] matches ItemV::Expr(e, _) && has_agg(e)),
            decreases self.projection@.len() - i,
        {
            match &self.projection[i] {
                SelectItem::Star => {},
                SelectItem::Expr { expr, .. } => {
                    if expr.contains_aggregate() {
                        assert(items[i as int] matches ItemV::Expr(e, _) && has_agg(e));
                        return true;
                    }
                },
            }
            i = i + 1;
        }
        false
    }

    /// Is this an aggregate query: one with a `GROUP BY` clause or an
    /// aggregate in its projection? Every other query runs row-wise.
    pub fn is_aggregate_query(&self) -> (b: bool)
        ensures
            b == (stmt_v(*self).group_by.len() > 0 || exists|i: int|
                0 <= i < stmt_v(*self).projection.len() && (
                #[trigger] stmt_v(*self).projection[i] matches ItemV::Expr(e, _) && has_agg(e))),
    {
        self.group_by.len() > 0 || self.projection_has_aggregate()
    }

    /// Every column the statement names must be one of `source_cols` (an
    /// `ORDER BY` key may instead name an output alias); the first one that
    /// is not, in [`required_columns`] order, is an `UnknownColumn` error.
    pub fn validate_columns(&self, source_cols: &[String]) -> (r: Result<(), TsSqlError>)
        ensures
            match first_unknown(required_columns(stmt_v(*self)), names_of(source_cols@)) {
                None => r is Ok,
                Some(c) => r matches Err(TsSqlError::UnknownColumn(n)) && n@ == c,
            },
    {
        let ghost s = stmt_v(*self);
        let ghost kv = names_of(source_cols@);
        // projection
        let mut i: usize = 0;
        while i < self.projection.len()
            invariant
                i <= self.projection@.len(),
                s == stmt_v(*self),
                kv == names_of(source_cols@),
                s.projection.len() == self.projection@.len(),
                first_unknown(projection_columns(s.projection.take(i as int)), kv) is None,
            decreases self.projection@.len() - i,
        {
            let ghost before = projection_columns(s.projection.take(i as int));
            proof {
                assert(s.projection.take(i + 1).drop_last() =~= s.projection.take(i as int));
                assert(s.projection.take(i + 1).last() == s.projection[i as int]);
            }
            match &self.projection[i] {
                SelectItem::Star => {
                    proof {
                        assert(projection_columns(s.projection.take(i + 1)) =~= before);
                    }
                },
                SelectItem::Expr { expr, .. } => {
                    let r = expr_first_unknown(expr, source_cols);
                    proof {
                        lemma_first_unknown_concat(before, expr_columns(sql_expr_v(*expr)), kv);
                        lemma_required_split(s, kv);
                        lemma_projection_prefix(s.projection, i as int + 1, kv);
                    }
                    match r {
                        Some(c) => {
                            return Err(TsSqlError::UnknownColumn(c));
                        },
                        None => {},
                    }
                },
            }
            i = i + 1;
        }
        assert(s.projection.take(s.projection.len() as int) =~= s.projection);
        let ghost p = projection_columns(s.projection);
        // filter
        let ghost f = filter_columns(s);
        proof {
            lemma_first_unknown_concat(p, f, kv);
        }
        match &self.filter {
            Some(pred) => {
                let r = expr_first_unknown(pred, source_cols);
                match r {
                    Some(c) => {
                        proof {
                            lemma_required_split(s, kv);
                        }
                        return Err(TsSqlError::UnknownColumn(c));
                    },
                    None => {},
                }
            },
            None => {},
        }
        // group keys
        let ghost g = s.group_by;
        let mut j: usize = 0;
        while j < self.group_by.len()
            invariant
                j <= self.group_by@.len(),
                s == stmt_v(*self),
                kv == names_of(source_cols@),
                g == s.group_by,
                p == projection_columns(s.projection),
                f == filter_columns(s),
                g.len() == self.group_by@.len(),
                first_unknown(p + f, kv) is None,
                forall|k: int| 0 <= k < j ==> kv.contains(#[trigger] g[k]),
            decreases self.group_by@.len() - j,
        {
            if !has_column(source_cols, self.group_by[j].as_str()) {
                proof {
                    lemma_first_unknown_at(g, j as int, kv);
                    lemma_first_unknown_concat(p, f, kv);
                    lemma_required_split(s, kv);
                }
                let name = self.group_by[j].clone();
                assert(name@ == g[j as int]);
                return Err(TsSqlError::UnknownColumn(name));
            }
            j = j + 1;
        }
        proof {
            lemma_first_unknown_all_known(g, kv);
            lemma_first_unknown_concat(p + f, g, kv);
        }
        // order keys
        let ghost o = s.order_by;
        let mut k: usize = 0;
        while k < self.order_by.len()
            invariant
                k <= self.order_by@.len(),
                s == stmt_v(*self),
                kv == names_of(source_cols@),
                o == s.order_by,
                p == projection_columns(s.projection),
                f == filter_columns(s),
                g == s.group_by,
                o.len() == self.order_by@.len(),
                first_unknown(p + f + g, kv) is None,
                first_unknown(order_columns(o.take(k as int), s.projection), kv) is None,
            decreases self.order_by@.len() - k,
        {
            let key = &self.order_by[k];
            let ghost before = order_columns(o.take(k as int), s.projection);
            proof {
                assert(o.take(k + 1).drop_last() =~= o.take(k as int));
                assert(o.take(k + 1).last() == o[k as int]);
                assert(o[k as int].0 == key.column@);
            }
            let known = has_column(source_cols, key.column.as_str());
            let alias = self.is_output_alias(key.column.as_str());
            let ghost piece = if output_alias(s.projection, key.column@) {
                Seq::<Seq<char>>::empty()
            } else {
                seq![key.column@]
            };
            proof {
                assert(order_columns(o.take(k + 1), s.projection) == before + piece);
                lemma_first_unknown_concat(before, piece, kv);
                assert(seq![key.column@].drop_first() =~= Seq::<Seq<char>>::empty());
            }
            if !known && !alias {
                proof {
                    lemma_order_prefix(o, s.projection, k as int + 1, kv);
                    lemma_first_unknown_concat(p + f, g, kv);
                    lemma_first_unknown_concat(p, f, kv);
                    lemma_required_split(s, kv);
                }
                let name = key.column.clone();
                assert(first_unknown(piece, kv) == Some(key.column@));
                assert(name@ == key.column@);
                return Err(TsSqlError::UnknownColumn(name));
            }
            proof {
                if alias {
                    assert(piece =~= Seq::<Seq<char>>::empty());
                } else {
                    assert(known);
                    assert(first_unknown(piece, kv) == first_unknown(piece.drop_first(), kv));
                }
            }
            k = k + 1;
        }
        assert(o.take(o.len() as int) =~= o);
        proof {
            lemma_first_unknown_concat(p + f, g, kv);
            lemma_first_unknown_concat(p, f, kv);
            lemma_required_split(s, kv);
        }
        Ok(())
    }
}

/// A name absent from `known` at position `j`, after known ones, is the
/// first unknown.
proof fn lemma_first_unknown_at(names: Seq<Seq<char>>, j: int, known: Seq<Seq<char>>)
    requires
        0 <= j < names.len(),
        forall|k: int| 0 <= k < j ==> known.contains(#[trigger] names[k]),
        !known.contains(names[j]),
    ensures
        first_unknown(names, known) == Some(names[j]),
    decreases j,
{
    if j > 0 {
        assert(known.contains(names[0]));
        assert forall|k: int| 0 <= k < j - 1 implies known.contains(#[trigger] names.drop_first()[k]) by {
            assert(names.drop_first()[k] == names[k + 1]);
        }
        lemma_first_unknown_at(names.drop_first(), j - 1, known);
    }
}

/// With every name known, there is no first unknown.
proof fn lemma_first_unknown_all_known(names: Seq<Seq<char>>, known: Seq<Seq<char>>)
    requires
        forall|k: int| 0 <= k < names.len() ==> known.contains(#[trigger] names[k]),
    ensures
        first_unknown(names, known) is None,
    decreases names.len(),
{
    if names.len() > 0 {
        assert(known.contains(names[0]));
        assert forall|k: int| 0 <= k < names.len() - 1 implies known.contains(
            #[trigger] names.drop_first()[k],
        ) by {
            assert(names.drop_first()[k] == names[k + 1]);
        }
        lemma_first_unknown_all_known(names.drop_first(), known);
    }
}

/// The first unknown of a prefix's columns, when there is one, is that of
/// the whole projection.
proof fn lemma_projection_prefix(items: Seq<ItemV>, n: int, known: Seq<Seq<char>>)
    requires
        0 <= n <= items.len(),
    ensures
        first_unknown(projection_columns(items.take(n)), known) is Some ==> first_unknown(
            projection_columns(items),
            known,
        ) == first_unknown(projection_columns(items.take(n)), known),
    decreases items.len() - n,
{
    if n < items.len() {
        lemma_projection_prefix(items, n + 1, known);
        assert(items.take(n + 1).drop_last() =~= items.take(n));
        let piece = match items.take(n + 1).last() {
            ItemV::Star => Seq::<Seq<char>>::empty(),
            ItemV::Expr(e, _) => expr_columns(e),
        };
        lemma_first_unknown_concat(projection_columns(items.take(n)), piece, known);
    } else {
        assert(items.take(n) =~= items);
    }
}

/// The same for the `ORDER BY` keys.
proof fn lemma_order_prefix(keys: Seq<(Seq<char>, bool)>, items: Seq<ItemV>, n: int, known: Seq<Seq<char>>)
    requires
        0 <= n <= keys.len(),
    ensures
        first_unknown(order_columns(keys.take(n), items), known) is Some ==> first_unknown(
            order_columns(keys, items),
            known,
        ) == first_unknown(order_columns(keys.take(n), items), known),
    decreases keys.len() - n,
{
    if n < keys.len() {
        lemma_order_prefix(keys, items, n + 1, known);
        assert(keys.take(n + 1).drop_last() =~= keys.take(n));
        let piece = if output_alias(items, keys.take(n + 1).last().0) {
            Seq::<Seq<char>>::empty()
        } else {
            seq![keys.take(n + 1).last().0]
        };
        lemma_first_unknown_concat(order_columns(keys.take(n), items), piece, known);
    } else {
        assert(keys.take(n) =~= keys);
    }
}

/// `out` with `n` appended unless it is already there.
pub open spec fn add_name(out: Seq<Seq<char>>, n: Seq<char>) -> Seq<Seq<char>> {
    if out.contains(n) {
        out
    } else {
        out.push(n)
    }
}

/// `out` with each of `ns` added in turn.
pub open spec fn add_names(out: Seq<Seq<char>>, ns: Seq<Seq<char>>) -> Seq<Seq<char>>
    decreases ns.len(),
{
    if ns.len() == 0 {
        out
    } else {
        add_name(add_names(out, ns.drop_last()), ns.last())
    }
}

/// The output columns of a row-wise query, in order: `*` contributes the
/// source columns, an expression its output name; a name already present is
/// not repeated.
pub open spec fn output_names(items: Seq<ItemV>, source: Seq<Seq<char>>) -> Seq<Seq<char>>
    decreases items.len(),
{
    if items.len() == 0 {
        Seq::empty()
    } else {
        let prev = output_names(items.drop_last(), source);
        match items.last() {
            ItemV::Star => add_names(prev, source),
            ItemV::Expr(_, a) => add_name(prev, a),
        }
    }
}

/// Appends `name` to `out` unless it is already there.
fn push_name(out: &mut Vec<String>, name: &String)
    ensures
        names_of(final(out)@) == add_name(names_of(old(out)@), name@),
{
    let present = has_column(out.as_slice(), name.as_str());
    if !present {
        let ghost before = out@;
        out.push(name.clone());
        assert(names_of(out@) =~= names_of(before).push(name@));
    }
}

impl TsSqlStmt {
    /// The output columns of this statement run as a row-wise query over a
    /// source with columns `source_cols`: see [`output_names`].
    pub fn rowwise_output_names(&self, source_cols: &[String]) -> (r: Vec<String>)
        ensures
            names_of(r@) == output_names(stmt_v(*self).projection, names_of(source_cols@)),
    {
        let ghost items = stmt_v(*self).projection;
        let ghost sv = names_of(source_cols@);
        let mut out: Vec<String> = Vec::new();
        let mut i: usize = 0;
        while i < self.projection.len()
            invariant
                i <= self.projection@.len(),
                items == stmt_v(*self).projection,
                sv == names_of(source_cols@),
                items.len() == self.projection@.len(),
                names_of(out@) == output_names(items.take(i as int), sv),
            decreases self.projection@.len() - i,
        {
            proof {
                assert(items.take(i + 1).drop_last() =~= items.take(i as int));
                assert(items.take(i + 1).last() == items[i as int]);
            }
            let ghost prev = names_of(out@);
            match &self.projection[i] {
                SelectItem::Star => {
                    let mut j: usize = 0;
                    while j < source_cols.len()
                        invariant
                            j <= source_cols@.len(),
                            sv == names_of(source_cols@),
                            names_of(out@) == add_names(prev, sv.take(j as int)),
                        decreases source_cols@.len() - j,
                    {
                        proof {
                            assert(sv.take(j + 1).drop_last() =~= sv.take(j as int));
                            assert(sv.take(j + 1).last() == source_cols@[j as int]@);
                        }
                        push_name(&mut out, &source_cols[j]);
                        j = j + 1;
                    }
                    assert(sv.take(sv.len() as int) =~= sv);
                },
                SelectItem::Expr { alias, .. } => {
                    push_name(&mut out, alias);
                },
            }
            i = i + 1;
        }
        assert(items.take(items.len() as int) =~= items);
        out
    }
}

/// Why a projection item cannot stand in an aggregate query, if it cannot:
/// `*` is refused, and an item without an aggregate must be a bare `GROUP BY`
/// key column.
pub open spec fn item_shape_error(item: ItemV, keys: Seq<Seq<char>>) -> Option<Seq<char>> {
    match item {
        ItemV::Star => Some("SELECT * is not allowed with GROUP BY / aggregates"@),
        ItemV::Expr(e, _) => if has_agg(e) {
            None
        } else {
            match e {
                SqlExprV::Column(c) => if keys.contains(c) {
                    None
                } else {
                    Some("column "@ + c + " must appear in GROUP BY or an aggregate"@)
                },
                _ => Some("a non-aggregate projection must be a GROUP BY key column"@),
            }
        },
    }
}

/// The first projection item, in order, that cannot stand in an aggregate
/// query, and why.
pub open spec fn shape_error(items: Seq<ItemV>, keys: Seq<Seq<char>>) -> Option<Seq<char>>
    decreases items.len(),
{
    if items.len() == 0 {
        None
    } else {
        match item_shape_error(items[0], keys) {
            Some(m) => Some(m),
            None => shape_error(items.drop_first(), keys),
        }
    }
}

impl TsSqlStmt {
    /// The projection rules of an aggregate query: `SELECT *` is refused, and
    /// every item without an aggregate must be a bare `GROUP BY` key column.
    /// The first item, in order, that breaks them is a `Type` error saying
    /// why ([`shape_error`]). Aggregate items pass here; they are checked
    /// when they are lowered.
    pub fn check_aggregate_projection(&self) -> (r: Result<(), TsSqlError>)
        ensures
            match shape_error(stmt_v(*self).projection, stmt_v(*self).group_by) {
                None => r is Ok,
                Some(m) => r matches Err(TsSqlError::Type(t)) && t@ == m,
            },
    {
        let ghost items = stmt_v(*self).projection;
        let ghost keys = stmt_v(*self).group_by;
        let mut i: usize = 0;
        assert(items.skip(0) =~= items);
        while i < self.projection.len()
            invariant
                i <= self.projection@.len(),
                items == stmt_v(*self).projection,
                keys == stmt_v(*self).group_by,
                items.len() == self.projection@.len(),
                shape_error(items, keys) == shape_error(items.skip(i as int), keys),
            decreases self.projection@.len() - i,
        {
            assert(items.skip(i as int).drop_first() =~= items.skip(i + 1));
            assert(items.skip(i as int)[0] == items[i as int]);
            match &self.projection[i] {
                SelectItem::Star => {
                    return Err(TsSqlError::Type("SELECT * is not allowed with GROUP BY / aggregates".to_owned()));
                },
                SelectItem::Expr { expr, .. } => {
                    if !expr.contains_aggregate() {
                        match expr {
                            SqlExpr::Column(name) => {
                                if !has_column(self.group_by.as_slice(), name.as_str()) {
                                    let mut m = "column ".to_owned();
                                    push_text(&mut m, name.as_str());
                                    push_text(&mut m, " must appear in GROUP BY or an aggregate");
                                    return Err(TsSqlError::Type(m));
                                }
                            },
                            _ => {
                                return Err(TsSqlError::Type(
                                    "a non-aggregate projection must be a GROUP BY key column".to_owned(),
                                ));
                            },
                        }
                    }
                },
            }
            i = i + 1;
        }
        assert(items.skip(i as int) =~= Seq::<ItemV>::empty());
        Ok(())
    }
}


/// `sub` occurs in `e`: it is `e` itself or occurs in one of its operands,
/// an aggregate's argument included.
pub open spec fn sub_expr(sub: SqlExprV, e: SqlExprV) -> bool
    decreases e,
{
    sub == e || match e {
        SqlExprV::Column(_) => false,
        SqlExprV::Lit(_) => false,
        SqlExprV::Arith(_, a, b) => sub_expr(sub, *a) || sub_expr(sub, *b),
        SqlExprV::Compare(_, a, b) => sub_expr(sub, *a) || sub_expr(sub, *b),
        SqlExprV::And(a, b) => sub_expr(sub, *a) || sub_expr(sub, *b),
        SqlExprV::Or(a, b) => sub_expr(sub, *a) || sub_expr(sub, *b),
        SqlExprV::Not(a) => sub_expr(sub, *a),
        SqlExprV::Case(w, t, o) => sub_expr(sub, *w) || sub_expr(sub, *t) || sub_expr(sub, *o),
        SqlExprV::Agg(_, arg) => match arg {
            Some(a) => sub_expr(sub, *a),
            None => false,
        },
    }
}

/// Every column a statement reads must be a source column, the argument of
/// an aggregate call included: when a column occurs anywhere in the
/// expression of a projection item or in the `WHERE` predicate and is not
/// among `known`, the column check finds an unknown column (so
/// [`TsSqlStmt::validate_columns`] answers `UnknownColumn`).
pub proof fn lemma_unknown_read_column_refused(
    s: crate::sql::StmtV,
    known: Seq<Seq<char>>,
    i: int,
    e: SqlExprV,
    c: Seq<char>,
)
    requires
        (0 <= i < s.projection.len() && (s.projection[i] matches ItemV::Expr(x, _) && x == e))
            || s.filter == Some(e),
        sub_expr(SqlExprV::Column(c), e),
        !known.contains(c),
    ensures
        first_unknown(required_columns(s), known) matches Some(x) && !known.contains(x),
{
    lemma_sub_expr_read(c, e);
    let p = projection_columns(s.projection);
    let f = filter_columns(s);
    let req = required_columns(s);
    if 0 <= i < s.projection.len() && (s.projection[i] matches ItemV::Expr(x, _) && x == e) {
        lemma_projection_reads(s.projection, i, e, c);
        let k = choose|k: int| 0 <= k < p.len() && p[k] == c;
        assert(req[k] == c);
    } else {
        let k = choose|k: int| 0 <= k < f.len() && f[k] == c;
        assert(req[p.len() + k] == c);
    }
    lemma_first_unknown_of_unknown(req, known, c);
}

proof fn lemma_sub_expr_read(c: Seq<char>, e: SqlExprV)
    requires
        sub_expr(SqlExprV::Column(c), e),
    ensures
        expr_columns(e).contains(c),
    decreases e,
{
    let col = SqlExprV::Column(c);
    if col == e {
        assert(expr_columns(e)[0] == c);
    } else {
        match e {
            SqlExprV::Column(_) => {},
            SqlExprV::Lit(_) => {},
            SqlExprV::Arith(_, a, b) => {
                if sub_expr(col, *a) {
                    lemma_sub_expr_read(c, *a);
                } else {
                    lemma_sub_expr_read(c, *b);
                }
                lemma_pair_read(c, *a, *b);
            },
            SqlExprV::Compare(_, a, b) => {
                if sub_expr(col, *a) {
                    lemma_sub_expr_read(c, *a);
                } else {
                    lemma_sub_expr_read(c, *b);
                }
                lemma_pair_read(c, *a, *b);
            },
            SqlExprV::And(a, b) => {
                if sub_expr(col, *a) {
                    lemma_sub_expr_read(c, *a);
                } else {
                    lemma_sub_expr_read(c, *b);
                }
                lemma_pair_read(c, *a, *b);
            },
            SqlExprV::Or(a, b) => {
                if sub_expr(col, *a) {
                    lemma_sub_expr_read(c, *a);
                } else {
                    lemma_sub_expr_read(c, *b);
                }
                lemma_pair_read(c, *a, *b);
            },
            SqlExprV::Not(a) => lemma_sub_expr_read(c, *a),
            SqlExprV::Case(w, t, o) => {
                let cw = expr_columns(*w);
                let ct = expr_columns(*t);
                let co = expr_columns(*o);
                if sub_expr(col, *w) {
                    lemma_sub_expr_read(c, *w);
                    let k = choose|k: int| 0 <= k < cw.len() && cw[k] == c;
                    assert((cw + ct + co)[k] == c);
                } else if sub_expr(col, *t) {
                    lemma_sub_expr_read(c, *t);
                    let k = choose|k: int| 0 <= k < ct.len() && ct[k] == c;
                    assert((cw + ct + co)[cw.len() + k] == c);
                } else {
                    lemma_sub_expr_read(c, *o);
                    let k = choose|k: int| 0 <= k < co.len() && co[k] == c;
                    assert((cw + ct + co)[cw.len() + ct.len() + k] == c);
                }
            },
            SqlExprV::Agg(_, arg) => match arg {
                Some(a) => lemma_sub_expr_read(c, *a),
                None => {},
            },
        }
    }
}

proof fn lemma_pair_read(c: Seq<char>, a: SqlExprV, b: SqlExprV)
    requires
        expr_columns(a).contains(c) || expr_columns(b).contains(c),
    ensures
        (expr_columns(a) + expr_columns(b)).contains(c),
{
    let ca = expr_columns(a);
    let cb = expr_columns(b);
    if ca.contains(c) {
        let k = choose|k: int| 0 <= k < ca.len() && ca[k] == c;
        assert((ca + cb)[k] == c);
    } else {
        let k = choose|k: int| 0 <= k < cb.len() && cb[k] == c;
        assert((ca + cb)[ca.len() + k] == c);
    }
}

proof fn lemma_projection_reads(items: Seq<ItemV>, i: int, e: SqlExprV, c: Seq<char>)
    requires
        0 <= i < items.len(),
        items[i] matches ItemV::Expr(x, _) && x == e,
        expr_columns(e).contains(c),
    ensures
        projection_columns(items).contains(c),
    decreases items.len(),
{
    let front = projection_columns(items.drop_last());
    let last = match items.last() {
        ItemV::Star => Seq::<Seq<char>>::empty(),
        ItemV::Expr(x, _) => expr_columns(x),
    };
    assert(projection_columns(items) == front + last);
    if i == items.len() - 1 {
        let k = choose|k: int| 0 <= k < last.len() && last[k] == c;
        assert((front + last)[front.len() + k] == c);
    } else {
        assert(items.drop_last()[i] == items[i]);
        lemma_projection_reads(items.drop_last(), i, e, c);
        let k = choose|k: int| 0 <= k < front.len() && front[k] == c;
        assert((front + last)[k] == c);
    }
}

proof fn lemma_first_unknown_of_unknown(names: Seq<Seq<char>>, known: Seq<Seq<char>>, c: Seq<char>)
    requires
        names.contains(c),
        !known.contains(c),
    ensures
        first_unknown(names, known) matches Some(x) && !known.contains(x),
    decreases names.len(),
{
    if known.contains(names[0]) {
        let k = choose|k: int| 0 <= k < names.len() && names[k] == c;
        assert(k != 0);
        assert(names.drop_first()[k - 1] == c);
        lemma_first_unknown_of_unknown(names.drop_first(), known, c);
    }
}


/// A `GROUP BY` key, or an `ORDER BY` key that names no output alias, must
/// be a source column: when it is not among `known`, the column check finds
/// an unknown column (so [`TsSqlStmt::validate_columns`] answers
/// `UnknownColumn`).
pub proof fn lemma_unknown_key_refused(s: crate::sql::StmtV, known: Seq<Seq<char>>, i: int, c: Seq<char>)
    requires
        (0 <= i < s.group_by.len() && s.group_by[i] == c) || (0 <= i < s.order_by.len()
            && s.order_by[i].0 == c && !output_alias(s.projection, c)),
        !known.contains(c),
    ensures
        first_unknown(required_columns(s), known) matches Some(x) && !known.contains(x),
{
    let p = projection_columns(s.projection);
    let f = filter_columns(s);
    let g = s.group_by;
    let o = order_columns(s.order_by, s.projection);
    let req = required_columns(s);
    if 0 <= i < s.group_by.len() && s.group_by[i] == c {
        assert(req[p.len() + f.len() + i] == c);
    } else {
        lemma_order_reads(s.order_by, s.projection, i);
        let k = choose|k: int| 0 <= k < o.len() && o[k] == c;
        assert(req[p.len() + f.len() + g.len() + k] == c);
    }
    lemma_first_unknown_of_unknown(req, known, c);
}

proof fn lemma_order_reads(keys: Seq<(Seq<char>, bool)>, items: Seq<ItemV>, i: int)
    requires
        0 <= i < keys.len(),
        !output_alias(items, keys[i].0),
    ensures
        order_columns(keys, items).contains(keys[i].0),
    decreases keys.len(),
{
    let front = order_columns(keys.drop_last(), items);
    let last = if output_alias(items, keys.last().0) {
        Seq::<Seq<char>>::empty()
    } else {
        seq![keys.last().0]
    };
    assert(order_columns(keys, items) == front + last);
    if i == keys.len() - 1 {
        assert((front + last)[front.len() as int] == keys[i].0);
    } else {
        assert(keys.drop_last()[i] == keys[i]);
        lemma_order_reads(keys.drop_last(), items, i);
        let k = choose|k: int| 0 <= k < front.len() && front[k] == keys[i].0;
        assert((front + last)[k] == keys[i].0);
    }
}


/// A projection item reads column `c`: it is an expression in which `c`
/// occurs.
pub open spec fn item_reads(item: ItemV, c: Seq<char>) -> bool {
    match item {
        ItemV::Star => false,
        ItemV::Expr(e, _) => sub_expr(SqlExprV::Column(c), e),
    }
}

/// The `WHERE` predicate of `s` reads column `c`.
pub open spec fn filter_reads(s: crate::sql::StmtV, c: Seq<char>) -> bool {
    match s.filter {
        Some(e) => sub_expr(SqlExprV::Column(c), e),
        None => false,
    }
}

/// A statement that reads only source columns passes the column check:
/// when every column occurring in a projection item or in the `WHERE`
/// predicate, every `GROUP BY` key and every `ORDER BY` key that names no
/// output alias is among `known`, there is no unknown column (so
/// [`TsSqlStmt::validate_columns`] answers `Ok`).
pub proof fn lemma_known_columns_accepted(s: crate::sql::StmtV, known: Seq<Seq<char>>)
    requires
        forall|i: int, c: Seq<char>|
            0 <= i < s.projection.len() && #[trigger] item_reads(s.projection[i], c)
                ==> known.contains(c),
        forall|c: Seq<char>| #[trigger] filter_reads(s, c) ==> known.contains(c),
        forall|k: int| 0 <= k < s.group_by.len() ==> known.contains(#[trigger] s.group_by[k]),
        forall|k: int|
            0 <= k < s.order_by.len() && !output_alias(s.projection, #[trigger] s.order_by[k].0)
                ==> known.contains(s.order_by[k].0),
    ensures
        first_unknown(required_columns(s), known) is None,
{
    let p = projection_columns(s.projection);
    let f = filter_columns(s);
    let g = s.group_by;
    let o = order_columns(s.order_by, s.projection);
    let req = required_columns(s);
    lemma_projection_known(s.projection, known);
    lemma_order_known(s.order_by, s.projection, known);
    assert forall|k: int| 0 <= k < f.len() implies known.contains(#[trigger] f[k]) by {
        let e = s.filter->0;
        assert(f == expr_columns(e));
        assert(expr_columns(e).contains(f[k]));
        lemma_read_sub_expr(e, f[k]);
        assert(filter_reads(s, f[k]));
    }
    assert forall|k: int| 0 <= k < req.len() implies known.contains(#[trigger] req[k]) by {
        if k < p.len() {
            assert(req[k] == p[k]);
        } else if k < p.len() + f.len() {
            assert(req[k] == f[k - p.len()]);
        } else if k < p.len() + f.len() + g.len() {
            assert(req[k] == g[k - p.len() - f.len()]);
        } else {
            assert(req[k] == o[k - p.len() - f.len() - g.len()]);
        }
    }
    lemma_first_unknown_all_known(req, known);
}

proof fn lemma_read_sub_expr(e: SqlExprV, c: Seq<char>)
    requires
        expr_columns(e).contains(c),
    ensures
        sub_expr(SqlExprV::Column(c), e),
    decreases e,
{
    match e {
        SqlExprV::Column(x) => {
            assert(expr_columns(e)[0] == x);
        },
        SqlExprV::Lit(_) => {},
        SqlExprV::Arith(_, a, b) => {
            lemma_pair_source(expr_columns(*a), expr_columns(*b), c);
            if expr_columns(*a).contains(c) {
                lemma_read_sub_expr(*a, c);
            } else {
                lemma_read_sub_expr(*b, c);
            }
        },
        SqlExprV::Compare(_, a, b) => {
            lemma_pair_source(expr_columns(*a), expr_columns(*b), c);
            if expr_columns(*a).contains(c) {
                lemma_read_sub_expr(*a, c);
            } else {
                lemma_read_sub_expr(*b, c);
            }
        },
        SqlExprV::And(a, b) => {
            lemma_pair_source(expr_columns(*a), expr_columns(*b), c);
            if expr_columns(*a).contains(c) {
                lemma_read_sub_expr(*a, c);
            } else {
                lemma_read_sub_expr(*b, c);
            }
        },
        SqlExprV::Or(a, b) => {
            lemma_pair_source(expr_columns(*a), expr_columns(*b), c);
            if expr_columns(*a).contains(c) {
                lemma_read_sub_expr(*a, c);
            } else {
                lemma_read_sub_expr(*b, c);
            }
        },
        SqlExprV::Not(a) => lemma_read_sub_expr(*a, c),
        SqlExprV::Case(w, t, o) => {
            let cw = expr_columns(*w);
            let ct = expr_columns(*t);
            let co = expr_columns(*o);
            let k = choose|k: int| 0 <= k < (cw + ct + co).len() && (cw + ct + co)[k] == c;
            if k < cw.len() {
                assert(cw[k] == c);
                lemma_read_sub_expr(*w, c);
            } else if k < cw.len() + ct.len() {
                assert(ct[k - cw.len()] == c);
                lemma_read_sub_expr(*t, c);
            } else {
                assert(co[k - cw.len() - ct.len()] == c);
                lemma_read_sub_expr(*o, c);
            }
        },
        SqlExprV::Agg(_, arg) => match arg {
            Some(a) => lemma_read_sub_expr(*a, c),
            None => {},
        },
    }
}

proof fn lemma_pair_source(ca: Seq<Seq<char>>, cb: Seq<Seq<char>>, c: Seq<char>)
    requires
        (ca + cb).contains(c),
    ensures
        ca.contains(c) || cb.contains(c),
{
    let k = choose|k: int| 0 <= k < (ca + cb).len() && (ca + cb)[k] == c;
    if k < ca.len() {
        assert(ca[k] == c);
    } else {
        assert(cb[k - ca.len()] == c);
    }
}

proof fn lemma_projection_known(items: Seq<ItemV>, known: Seq<Seq<char>>)
    requires
        forall|i: int, c: Seq<char>|
            0 <= i < items.len() && #[trigger] item_reads(items[i], c) ==> known.contains(c),
    ensures
        forall|k: int|
            0 <= k < projection_columns(items).len() ==> known.contains(
                #[trigger] projection_columns(items)[k],
            ),
    decreases items.len(),
{
    if items.len() > 0 {
        let d = items.drop_last();
        assert forall|i: int, c: Seq<char>|
            0 <= i < d.len() && #[trigger] item_reads(d[i], c) implies known.contains(c) by {
            assert(d[i] == items[i]);
        }
        lemma_projection_known(d, known);
        let front = projection_columns(d);
        let last = match items.last() {
            ItemV::Star => Seq::<Seq<char>>::empty(),
            ItemV::Expr(x, _) => expr_columns(x),
        };
        assert(projection_columns(items) == front + last);
        assert forall|k: int| 0 <= k < (front + last).len() implies known.contains(
            #[trigger] (front + last)[k],
        ) by {
            if k < front.len() {
                assert((front + last)[k] == front[k]);
            } else {
                let c = last[k - front.len()];
                assert((front + last)[k] == c);
                match items.last() {
                    ItemV::Star => {},
                    ItemV::Expr(x, _) => {
                        assert(expr_columns(x).contains(c));
                        lemma_read_sub_expr(x, c);
                        assert(item_reads(items[items.len() - 1], c));
                    },
                }
            }
        }
    }
}

proof fn lemma_order_known(keys: Seq<(Seq<char>, bool)>, items: Seq<ItemV>, known: Seq<Seq<char>>)
    requires
        forall|k: int|
            0 <= k < keys.len() && !output_alias(items, #[trigger] keys[k].0) ==> known.contains(
                keys[k].0,
            ),
    ensures
        forall|j: int|
            0 <= j < order_columns(keys, items).len() ==> known.contains(
                #[trigger] order_columns(keys, items)[j],
            ),
    decreases keys.len(),
{
    if keys.len() > 0 {
        let d = keys.drop_last();
        assert forall|k: int| 0 <= k < d.len() && !output_alias(items, #[trigger] d[k].0) implies known.contains(
            d[k].0,
        ) by {
            assert(d[k] == keys[k]);
        }
        lemma_order_known(d, items, known);
        let front = order_columns(d, items);
        let last = if output_alias(items, keys.last().0) {
            Seq::<Seq<char>>::empty()
        } else {
            seq![keys.last().0]
        };
        assert(order_columns(keys, items) == front + last);
        assert forall|j: int| 0 <= j < (front + last).len() implies known.contains(
            #[trigger] (front + last)[j],
        ) by {
            if j < front.len() {
                assert((front + last)[j] == front[j]);
            } else {
                assert((front + last)[j] == keys[keys.len() - 1].0);
            }
        }
    }
}

} // verus!
