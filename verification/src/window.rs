//! Building blocks of the window functions over a frame's aligned rows: a
//! column's element type read from its cells, the nullable column a window
//! function outputs, the source row of each row under `lag` / `lead` and its
//! `row_number` within a partition plan, gathering each output row's cell
//! from its source row, and the sub-frame of one partition's rows.
//!
//! Validity model: a window output carries an explicit "no value" for an
//! undefined cell. A `lag(1)` at a partition's first row has no predecessor,
//! so that cell is invalid (`None`), not zero.

use vstd::prelude::*;

use crate::dataframe::{cell_cloned, cells_cloned, column_points, column_type, TsCell, TsColumn, TsDataFrame, TsDataType};
use crate::point::TsPoint;
use crate::series::{sorted_i64, TsSeries};

verus! {

/// The element type a cell carries.
pub open spec fn cell_type<F, V>(c: TsCell<F, V>) -> TsDataType {
    match c {
        TsCell::F64(_) => TsDataType::F64,
        TsCell::I64(_) => TsDataType::I64,
        TsCell::Bool(_) => TsDataType::Bool,
        TsCell::Str(_) => TsDataType::Str,
        TsCell::Value(_) => TsDataType::Value,
    }
}

/// The element type of a column of cells: that of its first present
/// scalar cell (`F64`, `I64`, `Bool` or `Str`); `F64` when it has none.
pub open spec fn column_kind<F, V>(cells: Seq<Option<TsCell<F, V>>>) -> TsDataType
    decreases cells.len(),
{
    if cells.len() == 0 {
        TsDataType::F64
    } else {
        match cells[0] {
            Some(c) => if cell_type(c) != TsDataType::Value {
                cell_type(c)
            } else {
                column_kind(cells.drop_first())
            },
            None => column_kind(cells.drop_first()),
        }
    }
}

/// The cell an output row takes: the cell at source row `s`, when there is a
/// source row and its cell is present and of the column's element type.
pub open spec fn picked<F, V>(cells: Seq<Option<TsCell<F, V>>>, s: Option<usize>, kind: TsDataType) -> Option<TsCell<F, V>> {
    match s {
        Some(r) => match cells[r as int] {
            Some(c) => if cell_type(c) == kind {
                Some(c)
            } else {
                None
            },
            None => None,
        },
        None => None,
    }
}

/// `b` is `a` copied, `None` for `None`.
pub open spec fn opt_cell_cloned<F: Clone, V: Clone>(a: Option<TsCell<F, V>>, b: Option<TsCell<F, V>>) -> bool {
    match (a, b) {
        (Some(x), Some(y)) => cell_cloned(x, y),
        (None, None) => true,
        _ => false,
    }
}

/// A window function's output column: one cell per row of the frame's
/// aligned axis, `None` where the cell is undefined.
#[derive(Debug, PartialEq)]
pub enum TsNullColumn<F> {
    F64(Vec<Option<F>>),
    I64(Vec<Option<i64>>),
    Bool(Vec<Option<bool>>),
    Str(Vec<Option<String>>),
}

/// The element type of a nullable column.
pub open spec fn null_kind<F>(c: TsNullColumn<F>) -> TsDataType {
    match c {
        TsNullColumn::F64(_) => TsDataType::F64,
        TsNullColumn::I64(_) => TsDataType::I64,
        TsNullColumn::Bool(_) => TsDataType::Bool,
        TsNullColumn::Str(_) => TsDataType::Str,
    }
}

pub open spec fn lift_f64<F, V>(o: Option<F>) -> Option<TsCell<F, V>> {
    match o {
        Some(x) => Some(TsCell::F64(x)),
        None => None,
    }
}

pub open spec fn lift_i64<F, V>(o: Option<i64>) -> Option<TsCell<F, V>> {
    match o {
        Some(x) => Some(TsCell::I64(x)),
        None => None,
    }
}

pub open spec fn lift_bool<F, V>(o: Option<bool>) -> Option<TsCell<F, V>> {
    match o {
        Some(x) => Some(TsCell::Bool(x)),
        None => None,
    }
}

pub open spec fn lift_str<F, V>(o: Option<String>) -> Option<TsCell<F, V>> {
    match o {
        Some(x) => Some(TsCell::Str(x)),
        None => None,
    }
}

/// A nullable column's rows, as cells.
pub open spec fn null_cells<F, V>(c: TsNullColumn<F>) -> Seq<Option<TsCell<F, V>>> {
    match c {
        TsNullColumn::F64(v) => v@.map_values(|o: Option<F>| lift_f64::<F, V>(o)),
        TsNullColumn::I64(v) => v@.map_values(|o: Option<i64>| lift_i64::<F, V>(o)),
        TsNullColumn::Bool(v) => v@.map_values(|o: Option<bool>| lift_bool::<F, V>(o)),
        TsNullColumn::Str(v) => v@.map_values(|o: Option<String>| lift_str::<F, V>(o)),
    }
}

/// The element type of a column of cells; see [`column_kind`].
pub fn column_kind_of<F, V>(cells: &Vec<Option<TsCell<F, V>>>) -> (k: TsDataType)
    ensures
        k == column_kind(cells@),
{
    let mut i: usize = 0;
    assert(cells@.skip(0) =~= cells@);
    while i < cells.len()
        invariant
            i <= cells@.len(),
            column_kind(cells@) == column_kind(cells@.skip(i as int)),
        decreases cells@.len() - i,
    {
        assert(cells@.skip(i as int).drop_first() =~= cells@.skip(i + 1));
        assert(cells@.skip(i as int)[0] == cells@[i as int]);
        match &cells[i] {
            Some(TsCell::F64(_)) => {
                return TsDataType::F64;
            },
            Some(TsCell::I64(_)) => {
                return TsDataType::I64;
            },
            Some(TsCell::Bool(_)) => {
                return TsDataType::Bool;
            },
            Some(TsCell::Str(_)) => {
                return TsDataType::Str;
            },
            _ => {},
        }
        i = i + 1;
    }
    assert(cells@.skip(i as int) =~= Seq::<Option<TsCell<F, V>>>::empty());
    TsDataType::F64
}

/// Each output row's cell taken from its source row: row `i` holds a copy of
/// the cell at row `src[i]` of `input` when that source row exists and its
/// cell is present and of the column's element type ([`column_kind`]), and
/// is undefined otherwise. The output has one row per entry of `src`.
pub fn gather<F: Clone, V: Clone>(input: &Vec<Option<TsCell<F, V>>>, src: &Vec<Option<usize>>) -> (out: TsNullColumn<F>)
    requires
        forall|i: int| 0 <= i < src@.len() ==> (#[trigger] src@[i] matches Some(r) ==> r < input@.len()),
    ensures
        null_kind(out) == column_kind(input@),
        null_cells::<F, V>(out).len() == src@.len(),
        forall|i: int|
            0 <= i < src@.len() ==> opt_cell_cloned(
                picked(input@, src@[i], column_kind(input@)),
                #[trigger] null_cells::<F, V>(out)[i],
            ),
{
    let kind = column_kind_of(input);
    let n = src.len();
    match kind {
        TsDataType::I64 => {
            let mut v: Vec<Option<i64>> = Vec::new();
            for i in 0..n
                invariant
                    n == src@.len(),
                    kind == column_kind(input@),
                    kind == TsDataType::I64,
                    v@.len() == i,
                    forall|i: int| 0 <= i < src@.len() ==> (#[trigger] src@[i] matches Some(r) ==> r < input@.len()),
                    forall|k: int|
                        0 <= k < i ==> opt_cell_cloned(picked(input@, src@[k], kind), lift_i64::<F, V>(#[trigger] v@[k])),
            {
                let c: Option<i64> = match src[i] {
                    Some(r) => match &input[r] {
                        Some(TsCell::I64(x)) => Some(*x),
                        _ => None,
                    },
                    None => None,
                };
                v.push(c);
            }
            let out = TsNullColumn::I64(v);
            assert forall|i: int| 0 <= i < src@.len() implies opt_cell_cloned(
                picked(input@, src@[i], kind),
                #[trigger] null_cells::<F, V>(out)[i],
            ) by {
                assert(null_cells::<F, V>(out)[i] == lift_i64::<F, V>(v@[i]));
            }
            out
        },
        TsDataType::Bool => {
            let mut v: Vec<Option<bool>> = Vec::new();
            for i in 0..n
                invariant
                    n == src@.len(),
                    kind == column_kind(input@),
                    kind == TsDataType::Bool,
                    v@.len() == i,
                    forall|i: int| 0 <= i < src@.len() ==> (#[trigger] src@[i] matches Some(r) ==> r < input@.len()),
                    forall|k: int|
                        0 <= k < i ==> opt_cell_cloned(picked(input@, src@[k], kind), lift_bool::<F, V>(#[trigger] v@[k])),
            {
                let c: Option<bool> = match src[i] {
                    Some(r) => match &input[r] {
                        Some(TsCell::Bool(x)) => Some(*x),
                        _ => None,
                    },
                    None => None,
                };
                v.push(c);
            }
            let out = TsNullColumn::Bool(v);
            assert forall|i: int| 0 <= i < src@.len() implies opt_cell_cloned(
                picked(input@, src@[i], kind),
                #[trigger] null_cells::<F, V>(out)[i],
            ) by {
                assert(null_cells::<F, V>(out)[i] == lift_bool::<F, V>(v@[i]));
            }
            out
        },
        TsDataType::Str => {
            let mut v: Vec<Option<String>> = Vec::new();
            for i in 0..n
                invariant
                    n == src@.len(),
                    kind == column_kind(input@),
                    kind == TsDataType::Str,
                    v@.len() == i,
                    forall|i: int| 0 <= i < src@.len() ==> (#[trigger] src@[i] matches Some(r) ==> r < input@.len()),
                    forall|k: int|
                        0 <= k < i ==> opt_cell_cloned(picked(input@, src@[k], kind), lift_str::<F, V>(#[trigger] v@[k])),
            {
                let c: Option<String> = match src[i] {
                    Some(r) => match &input[r] {
                        Some(TsCell::Str(x)) => Some(x.clone()),
                        _ => None,
                    },
                    None => None,
                };
                v.push(c);
            }
            let out = TsNullColumn::Str(v);
            assert forall|i: int| 0 <= i < src@.len() implies opt_cell_cloned(
                picked(input@, src@[i], kind),
                #[trigger] null_cells::<F, V>(out)[i],
            ) by {
                assert(null_cells::<F, V>(out)[i] == lift_str::<F, V>(v@[i]));
            }
            out
        },
        _ => {
            assert(kind == TsDataType::F64) by {
                lemma_column_kind_scalar(input@);
            }
            let mut v: Vec<Option<F>> = Vec::new();
            for i in 0..n
                invariant
                    n == src@.len(),
                    kind == column_kind(input@),
                    kind == TsDataType::F64,
                    v@.len() == i,
                    forall|i: int| 0 <= i < src@.len() ==> (#[trigger] src@[i] matches Some(r) ==> r < input@.len()),
                    forall|k: int|
                        0 <= k < i ==> opt_cell_cloned(picked(input@, src@[k], kind), lift_f64::<F, V>(#[trigger] v@[k])),
            {
                let c: Option<F> = match src[i] {
                    Some(r) => match &input[r] {
                        Some(TsCell::F64(x)) => Some(x.clone()),
                        _ => None,
                    },
                    None => None,
                };
                v.push(c);
            }
            let out = TsNullColumn::F64(v);
            assert forall|i: int| 0 <= i < src@.len() implies opt_cell_cloned(
                picked(input@, src@[i], kind),
                #[trigger] null_cells::<F, V>(out)[i],
            ) by {
                assert(null_cells::<F, V>(out)[i] == lift_f64::<F, V>(v@[i]));
            }
            out
        },
    }
}

/// A column's element type is never `Value`.
proof fn lemma_column_kind_scalar<F, V>(cells: Seq<Option<TsCell<F, V>>>)
    ensures
        column_kind(cells) != TsDataType::Value,
    decreases cells.len(),
{
    if cells.len() > 0 {
        lemma_column_kind_scalar(cells.drop_first());
    }
}

/// The present cells of a row sequence as points stamped by row position.
pub open spec fn present_points<F, V>(rows: Seq<Option<TsCell<F, V>>>) -> Seq<TsPoint<TsCell<F, V>>>
    decreases rows.len(),
{
    if rows.len() == 0 {
        Seq::empty()
    } else {
        present_points(rows.drop_last()) + match rows.last() {
            Some(c) => seq![TsPoint { ts: (rows.len() - 1) as i64, value: c }],
            None => Seq::<TsPoint<TsCell<F, V>>>::empty(),
        }
    }
}

/// A nullable column as a series of its own element type: each defined row
/// becomes a point stamped by its row position.
fn null_to_column<F, V>(col: TsNullColumn<F>) -> (c: TsColumn<F, V>)
    requires
        null_cells::<F, V>(col).len() <= i64::MAX,
    ensures
        column_type(c) == null_kind(col),
        column_points(c) == present_points(null_cells::<F, V>(col)),
{
    match col {
        TsNullColumn::F64(v) => {
            let ghost lifted_src = v@;
            let ghost lifted = v@.map_values(|o: Option<F>| lift_f64::<F, V>(o));
            let n = v.len();
            let mut ts: Vec<i64> = Vec::new();
            let mut vals: Vec<F> = Vec::new();
            let mut k: usize = 0;
            for o in it: v.into_iter()
                invariant
                    it.seq() == lifted_src,
                    lifted_src.len() == n,
                    lifted == lifted_src.map_values(|o: Option<F>| lift_f64::<F, V>(o)),
                    n <= i64::MAX,
                    k == it.index(),
                    k <= n,
                    ts@.len() == vals@.len(),
                    sorted_i64(ts@),
                    forall|j: int| 0 <= j < ts@.len() ==> #[trigger] ts@[j] < k,
                    Seq::new(ts@.len(), |j: int| TsPoint { ts: ts@[j], value: TsCell::<F, V>::F64(vals@[j]) })
                        == present_points(lifted.take(k as int)),
            {
                let ghost prev = Seq::new(ts@.len(), |j: int| TsPoint { ts: ts@[j], value: TsCell::<F, V>::F64(vals@[j]) });
                proof {
                    assert(lifted.take(k + 1).drop_last() =~= lifted.take(k as int));
                    assert(lifted.take(k + 1).last() == lift_f64::<F, V>(o));
                }
                match o {
                    Some(x) => {
                        ts.push(k as i64);
                        vals.push(x);
                        proof {
                            assert(Seq::new(ts@.len(), |j: int| TsPoint { ts: ts@[j], value: TsCell::<F, V>::F64(vals@[j]) })
                                =~= prev.push(TsPoint { ts: k as i64, value: TsCell::<F, V>::F64(x) }));
                        }
                    },
                    None => {},
                }
                k = k + 1;
            }
            assert(lifted.take(n as int) =~= lifted);
            let s = TsSeries::from_sorted_parts(ts, vals);
            let c = TsColumn::F64(s);
            assert(column_points(c) =~= present_points(lifted));
            c
        },
        TsNullColumn::I64(v) => {
            let ghost lifted_src = v@;
            let ghost lifted = v@.map_values(|o: Option<i64>| lift_i64::<F, V>(o));
            let n = v.len();
            let mut ts: Vec<i64> = Vec::new();
            let mut vals: Vec<i64> = Vec::new();
            let mut k: usize = 0;
            for o in it: v.into_iter()
                invariant
                    it.seq() == lifted_src,
                    lifted_src.len() == n,
                    lifted == lifted_src.map_values(|o: Option<i64>| lift_i64::<F, V>(o)),
                    n <= i64::MAX,
                    k == it.index(),
                    k <= n,
                    ts@.len() == vals@.len(),
                    sorted_i64(ts@),
                    forall|j: int| 0 <= j < ts@.len() ==> #[trigger] ts@[j] < k,
                    Seq::new(ts@.len(), |j: int| TsPoint { ts: ts@[j], value: TsCell::<F, V>::I64(vals@[j]) })
                        == present_points(lifted.take(k as int)),
            {
                let ghost prev = Seq::new(ts@.len(), |j: int| TsPoint { ts: ts@[j], value: TsCell::<F, V>::I64(vals@[j]) });
                proof {
                    assert(lifted.take(k + 1).drop_last() =~= lifted.take(k as int));
                    assert(lifted.take(k + 1).last() == lift_i64::<F, V>(o));
                }
                match o {
                    Some(x) => {
                        ts.push(k as i64);
                        vals.push(x);
                        proof {
                            assert(Seq::new(ts@.len(), |j: int| TsPoint { ts: ts@[j], value: TsCell::<F, V>::I64(vals@[j]) })
                                =~= prev.push(TsPoint { ts: k as i64, value: TsCell::<F, V>::I64(x) }));
                        }
                    },
                    None => {},
                }
                k = k + 1;
            }
            assert(lifted.take(n as int) =~= lifted);
            let s = TsSeries::from_sorted_parts(ts, vals);
            let c = TsColumn::I64(s);
            assert(column_points(c) =~= present_points(lifted));
            c
        },
        TsNullColumn::Bool(v) => {
            let ghost lifted_src = v@;
            let ghost lifted = v@.map_values(|o: Option<bool>| lift_bool::<F, V>(o));
            let n = v.len();
            let mut ts: Vec<i64> = Vec::new();
            let mut vals: Vec<bool> = Vec::new();
            let mut k: usize = 0;
            for o in it: v.into_iter()
                invariant
                    it.seq() == lifted_src,
                    lifted_src.len() == n,
                    lifted == lifted_src.map_values(|o: Option<bool>| lift_bool::<F, V>(o)),
                    n <= i64::MAX,
                    k == it.index(),
                    k <= n,
                    ts@.len() == vals@.len(),
                    sorted_i64(ts@),
                    forall|j: int| 0 <= j < ts@.len() ==> #[trigger] ts@[j] < k,
                    Seq::new(ts@.len(), |j: int| TsPoint { ts: ts@[j], value: TsCell::<F, V>::Bool(vals@[j]) })
                        == present_points(lifted.take(k as int)),
            {
                let ghost prev = Seq::new(ts@.len(), |j: int| TsPoint { ts: ts@[j], value: TsCell::<F, V>::Bool(vals@[j]) });
                proof {
                    assert(lifted.take(k + 1).drop_last() =~= lifted.take(k as int));
                    assert(lifted.take(k + 1).last() == lift_bool::<F, V>(o));
                }
                match o {
                    Some(x) => {
                        ts.push(k as i64);
                        vals.push(x);
                        proof {
                            assert(Seq::new(ts@.len(), |j: int| TsPoint { ts: ts@[j], value: TsCell::<F, V>::Bool(vals@[j]) })
                                =~= prev.push(TsPoint { ts: k as i64, value: TsCell::<F, V>::Bool(x) }));
                        }
                    },
                    None => {},
                }
                k = k + 1;
            }
            assert(lifted.take(n as int) =~= lifted);
            let s = TsSeries::from_sorted_parts(ts, vals);
            let c = TsColumn::Bool(s);
            assert(column_points(c) =~= present_points(lifted));
            c
        },
        TsNullColumn::Str(v) => {
            let ghost lifted_src = v@;
            let ghost lifted = v@.map_values(|o: Option<String>| lift_str::<F, V>(o));
            let n = v.len();
            let mut ts: Vec<i64> = Vec::new();
            let mut vals: Vec<String> = Vec::new();
            let mut k: usize = 0;
            for o in it: v.into_iter()
                invariant
                    it.seq() == lifted_src,
                    lifted_src.len() == n,
                    lifted == lifted_src.map_values(|o: Option<String>| lift_str::<F, V>(o)),
                    n <= i64::MAX,
                    k == it.index(),
                    k <= n,
                    ts@.len() == vals@.len(),
                    sorted_i64(ts@),
                    forall|j: int| 0 <= j < ts@.len() ==> #[trigger] ts@[j] < k,
                    Seq::new(ts@.len(), |j: int| TsPoint { ts: ts@[j], value: TsCell::<F, V>::Str(vals@[j]) })
                        == present_points(lifted.take(k as int)),
            {
                let ghost prev = Seq::new(ts@.len(), |j: int| TsPoint { ts: ts@[j], value: TsCell::<F, V>::Str(vals@[j]) });
                proof {
                    assert(lifted.take(k + 1).drop_last() =~= lifted.take(k as int));
                    assert(lifted.take(k + 1).last() == lift_str::<F, V>(o));
                }
                match o {
                    Some(x) => {
                        ts.push(k as i64);
                        vals.push(x);
                        proof {
                            assert(Seq::new(ts@.len(), |j: int| TsPoint { ts: ts@[j], value: TsCell::<F, V>::Str(vals@[j]) })
                                =~= prev.push(TsPoint { ts: k as i64, value: TsCell::<F, V>::Str(x) }));
                        }
                    },
                    None => {},
                }
                k = k + 1;
            }
            assert(lifted.take(n as int) =~= lifted);
            let s = TsSeries::from_sorted_parts(ts, vals);
            let c = TsColumn::Str(s);
            assert(column_points(c) =~= present_points(lifted));
            c
        },
    }
}

/// The cells of one partition's rows, in partition order: row `k` holds the
/// cell of row `rows[k]` when it is present and of the column's type.
pub open spec fn partition_cells<F, V>(
    cells: Seq<Option<TsCell<F, V>>>,
    rows: Seq<usize>,
    kind: TsDataType,
) -> Seq<Option<TsCell<F, V>>> {
    Seq::new(rows.len(), |k: int| picked(cells, Some(rows[k]), kind))
}

proof fn lemma_present_points_cloned<F: Clone, V: Clone>(a: Seq<Option<TsCell<F, V>>>, b: Seq<Option<TsCell<F, V>>>)
    requires
        a.len() == b.len(),
        forall|k: int| 0 <= k < a.len() ==> opt_cell_cloned(a[k], #[trigger] b[k]),
    ensures
        cells_cloned(present_points(a), present_points(b)),
    decreases a.len(),
{
    if a.len() > 0 {
        assert(opt_cell_cloned(a[a.len() - 1], b[b.len() - 1]));
        lemma_present_points_cloned(a.drop_last(), b.drop_last());
        let pa = present_points(a.drop_last());
        let pb = present_points(b.drop_last());
        match (a.last(), b.last()) {
            (Some(x), Some(y)) => {
                let qa = pa + seq![TsPoint { ts: (a.len() - 1) as i64, value: x }];
                let qb = pb + seq![TsPoint { ts: (b.len() - 1) as i64, value: y }];
                assert forall|i: int| 0 <= i < qa.len() implies #[trigger] qb[i].ts == qa[i].ts && cell_cloned(
                    qa[i].value,
                    qb[i].value,
                ) by {
                    if i < pa.len() {
                        assert(qa[i] == pa[i] && qb[i] == pb[i]);
                    }
                }
            },
            _ => {
                assert(present_points(a) =~= pa);
                assert(present_points(b) =~= pb);
            },
        }
    }
}

/// The sub-frame of one partition: every column keeps its name and element
/// type ([`column_kind`]), and holds the partition's rows in partition order
/// at stamps `0, 1, ...`; a row whose cell is missing (or not of the
/// column's type) leaves a gap at its stamp. Values are copies.
pub fn sub_frame<F: Clone, V: Clone>(
    names: &Vec<String>,
    columns: &Vec<Vec<Option<TsCell<F, V>>>>,
    rows: &Vec<usize>,
) -> (df: TsDataFrame<F, V>)
    requires
        columns@.len() == names@.len(),
        forall|i: int, j: int| 0 <= i < j < names@.len() ==> names@[i]@ != names@[j]@,
        forall|c: int, k: int|
            0 <= c < columns@.len() && 0 <= k < rows@.len() ==> #[trigger] rows@[k] < (#[trigger] columns@[c])@.len(),
        rows@.len() <= i64::MAX,
    ensures
        df.spec_names() == names@.map_values(|n: String| n@),
        df.spec_columns().len() == names@.len(),
        forall|c: int|
            0 <= c < names@.len() ==> column_type(#[trigger] df.spec_columns()[c]) == column_kind(columns@[c]@)
                && cells_cloned(
                present_points(partition_cells(columns@[c]@, rows@, column_kind(columns@[c]@))),
                column_points(df.spec_columns()[c]),
            ),
{
    let mut src: Vec<Option<usize>> = Vec::new();
    for k in 0..rows.len()
        invariant
            src@.len() == k,
            forall|j: int| 0 <= j < k ==> #[trigger] src@[j] == Some(rows@[j]),
    {
        src.push(Some(rows[k]));
    }
    let ghost nv = names@.map_values(|n: String| n@);
    let mut f: TsDataFrame<F, V> = TsDataFrame::new();
    for ci in 0..names.len()
        invariant
            columns@.len() == names@.len(),
            nv == names@.map_values(|n: String| n@),
            forall|i: int, j: int| 0 <= i < j < names@.len() ==> names@[i]@ != names@[j]@,
            forall|c: int, k: int|
                0 <= c < columns@.len() && 0 <= k < rows@.len() ==> #[trigger] rows@[k] < (#[trigger] columns@[c])@.len(),
            rows@.len() <= i64::MAX,
            src@.len() == rows@.len(),
            forall|j: int| 0 <= j < rows@.len() ==> #[trigger] src@[j] == Some(rows@[j]),
            f.spec_names() == nv.take(ci as int),
            f.spec_columns().len() == ci,
            forall|c: int|
                0 <= c < ci ==> column_type(#[trigger] f.spec_columns()[c]) == column_kind(columns@[c]@)
                    && cells_cloned(
                    present_points(partition_cells(columns@[c]@, rows@, column_kind(columns@[c]@))),
                    column_points(f.spec_columns()[c]),
                ),
    {
        let ghost cells = columns@[ci as int]@;
        assert forall|i: int| 0 <= i < src@.len() implies (#[trigger] src@[i] matches Some(r) ==> r
            < columns[ci as int]@.len()) by {
            assert(src@[i] == Some(rows@[i]));
            assert(rows@[i] < columns@[ci as int]@.len());
        }
        let g = gather(&columns[ci], &src);
        let ghost kind = column_kind(cells);
        proof {
            let pc = partition_cells(cells, rows@, kind);
            assert forall|k: int| 0 <= k < pc.len() implies opt_cell_cloned(pc[k], #[trigger] null_cells::<F, V>(g)[k]) by {
                assert(src@[k] == Some(rows@[k]));
            }
            lemma_present_points_cloned(pc, null_cells::<F, V>(g));
        }
        let col = null_to_column(g);
        let name = names[ci].clone();
        proof {
            if f.spec_names().contains(name@) {
                let j = choose|j: int| 0 <= j < f.spec_names().len() && f.spec_names()[j] == name@;
                assert(nv[j] == names@[j]@);
                assert(false);
            }
        }
        let ghost prev_cols = f.spec_columns();
        f = f.with_column(name, col);
        proof {
            assert(nv.take(ci + 1) =~= nv.take(ci as int).push(names@[ci as int]@));
            assert forall|c: int| 0 <= c < ci + 1 implies column_type(#[trigger] f.spec_columns()[c]) == column_kind(
                columns@[c]@,
            ) && cells_cloned(
                present_points(partition_cells(columns@[c]@, rows@, column_kind(columns@[c]@))),
                column_points(f.spec_columns()[c]),
            ) by {
                if c < ci {
                    assert(f.spec_columns()[c] == prev_cols[c]);
                }
            }
        }
    }
    assert(nv.take(names@.len() as int) =~= nv);
    f
}

/// Row `row` sits at position `i` of partition `p`.
pub open spec fn located(parts: Seq<Seq<usize>>, row: int, p: int, i: int) -> bool {
    0 <= p < parts.len() && 0 <= i < parts[p].len() && parts[p][i] == row
}

/// No row sits in two places of the partition plan.
pub open spec fn rows_distinct(parts: Seq<Seq<usize>>) -> bool {
    forall|p1: int, i1: int, p2: int, i2: int|
        located(parts, #[trigger] parts[p1][i1] as int, p1, i1) && located(parts, #[trigger] parts[p2][i2] as int, p2, i2)
            && parts[p1][i1] == parts[p2][i2] ==> p1 == p2 && i1 == i2
}

/// The partition and position of `row`, when the plan holds it.
pub open spec fn position_of(parts: Seq<Seq<usize>>, row: int) -> Option<(int, int)> {
    if exists|p: int, i: int| located(parts, row, p, i) {
        Some(choose|p: int, i: int| located(parts, row, p, i))
    } else {
        None
    }
}

/// The source row of `row` under a shift by `offset` within its partition:
/// the row `offset` positions earlier (later for a negative offset), or
/// `None` when that falls off the partition, or when the plan does not hold
/// `row`.
pub open spec fn shift_source(parts: Seq<Seq<usize>>, row: int, offset: int) -> Option<usize> {
    match position_of(parts, row) {
        Some((p, i)) => if 0 <= i - offset < parts[p].len() {
            Some(parts[p][i - offset])
        } else {
            None
        },
        None => None,
    }
}

/// Some row at or before position (`p`, `i`) of the plan is `row`.
pub open spec fn seen(parts: Seq<Seq<usize>>, row: int, p: int, i: int) -> bool {
    exists|p2: int, i2: int| located(parts, row, p2, i2) && (p2 < p || (p2 == p && i2 < i))
}

proof fn lemma_position_unique(parts: Seq<Seq<usize>>, row: int, p: int, i: int)
    requires
        rows_distinct(parts),
        located(parts, row, p, i),
    ensures
        position_of(parts, row) == Some((p, i)),
{
    assert(exists|p: int, i: int| located(parts, row, p, i));
    let (p2, i2) = choose|p2: int, i2: int| located(parts, row, p2, i2);
    assert(located(parts, parts[p2][i2] as int, p2, i2));
    assert(located(parts, parts[p][i] as int, p, i));
}

/// The source row of every row of the aligned axis under a shift by
/// `offset` inside its partition ([`shift_source`]): `lag(n)` shifts by `n`,
/// `lead(n)` by `-n`. A row with no source is `None` - an undefined output
/// cell, not a zero.
pub fn shift_sources(nrows: usize, parts: &Vec<Vec<usize>>, offset: isize) -> (out: Vec<Option<usize>>)
    requires
        forall|p: int, i: int|
            0 <= p < parts@.len() && 0 <= i < parts@[p]@.len() ==> (#[trigger] parts@[p]@[i]) < nrows,
        rows_distinct(parts@.map_values(|v: Vec<usize>| v@)),
    ensures
        out@.len() == nrows,
        forall|row: int|
            0 <= row < nrows ==> #[trigger] out@[row] == shift_source(
                parts@.map_values(|v: Vec<usize>| v@),
                row,
                offset as int,
            ),
{
    let ghost pv = parts@.map_values(|v: Vec<usize>| v@);
    let mut out: Vec<Option<usize>> = Vec::new();
    for k in 0..nrows
        invariant
            out@.len() == k,
            forall|j: int| 0 <= j < k ==> #[trigger] out@[j] is None,
    {
        out.push(None);
    }
    let np = parts.len();
    let mut p: usize = 0;
    while p < np
        invariant
            np == parts@.len() == pv.len(),
            pv == parts@.map_values(|v: Vec<usize>| v@),
            p <= np,
            out@.len() == nrows,
            rows_distinct(pv),
            forall|q: int, i: int| 0 <= q < pv.len() && 0 <= i < pv[q].len() ==> (#[trigger] pv[q][i]) < nrows,
            forall|row: int|
                0 <= row < nrows ==> #[trigger] out@[row] == if seen(pv, row, p as int, 0) {
                    shift_source(pv, row, offset as int)
                } else {
                    None
                },
        decreases np - p,
    {
        let part = &parts[p];
        assert(part@ == pv[p as int]);
        let len = part.len();
        let mut i: usize = 0;
        while i < len
            invariant
                np == parts@.len() == pv.len(),
                p < np,
                part@ == pv[p as int],
                len == part@.len(),
                i <= len,
                out@.len() == nrows,
                rows_distinct(pv),
                forall|q: int, j: int| 0 <= q < pv.len() && 0 <= j < pv[q].len() ==> (#[trigger] pv[q][j]) < nrows,
                forall|row: int|
                    0 <= row < nrows ==> #[trigger] out@[row] == if seen(pv, row, p as int, i as int) {
                        shift_source(pv, row, offset as int)
                    } else {
                        None
                    },
            decreases len - i,
        {
            let row = part[i];
            assert(pv[p as int][i as int] == row);
            proof {
                lemma_position_unique(pv, row as int, p as int, i as int);
            }
            let from: i128 = i as i128 - offset as i128;
            let ghost old_out = out@;
            if 0 <= from && from < len as i128 {
                out.set(row, Some(part[from as usize]));
            }
            proof {
                assert forall|r: int| 0 <= r < nrows implies #[trigger] out@[r] == if seen(pv, r, p as int, i + 1) {
                    shift_source(pv, r, offset as int)
                } else {
                    None
                } by {
                    if r == row as int {
                        assert(located(pv, r, p as int, i as int));
                        assert(seen(pv, r, p as int, i + 1));
                        if seen(pv, r, p as int, i as int) {
                            let (p2, i2) = choose|p2: int, i2: int| located(pv, r, p2, i2) && (p2 < p || (p2 == p && i2 < i));
                            assert(located(pv, pv[p2][i2] as int, p2, i2));
                            assert(located(pv, pv[p as int][i as int] as int, p as int, i as int));
                        }
                    } else {
                        assert(out@[r] == old_out[r]);
                        if seen(pv, r, p as int, i + 1) {
                            let (p2, i2) = choose|p2: int, i2: int| located(pv, r, p2, i2) && (p2 < p || (p2 == p && i2 < i + 1));
                            assert(i2 != i || p2 != p);
                            assert(seen(pv, r, p as int, i as int));
                        } else {
                            assert(!seen(pv, r, p as int, i as int));
                        }
                    }
                }
            }
            i = i + 1;
        }
        proof {
            assert forall|r: int| 0 <= r < nrows implies #[trigger] out@[r] == if seen(pv, r, p + 1, 0) {
                shift_source(pv, r, offset as int)
            } else {
                None
            } by {
                if seen(pv, r, p + 1, 0) {
                    let (p2, i2) = choose|p2: int, i2: int| located(pv, r, p2, i2) && (p2 < p + 1 || (p2 == p + 1 && i2 < 0));
                    assert(seen(pv, r, p as int, len as int));
                } else {
                    if seen(pv, r, p as int, len as int) {
                        let (p2, i2) = choose|p2: int, i2: int| located(pv, r, p2, i2) && (p2 < p || (p2 == p && i2 < len));
                        assert(seen(pv, r, p + 1, 0));
                    }
                }
            }
        }
        p = p + 1;
    }
    proof {
        assert forall|r: int| 0 <= r < nrows implies #[trigger] out@[r] == shift_source(pv, r, offset as int) by {
            if !seen(pv, r, np as int, 0) {
                if exists|p2: int, i2: int| located(pv, r, p2, i2) {
                    let (p2, i2) = choose|p2: int, i2: int| located(pv, r, p2, i2);
                    assert(seen(pv, r, np as int, 0));
                }
            }
        }
    }
    out
}

/// The 1-based position of `row` in its partition, when the plan holds it.
pub open spec fn row_number_of(parts: Seq<Seq<usize>>, row: int) -> Option<i64> {
    match position_of(parts, row) {
        Some((p, i)) => Some((i + 1) as i64),
        None => None,
    }
}

/// `row_number()` of every row of the aligned axis: its 1-based position in
/// its partition's order ([`row_number_of`]); `None` for a row the plan does
/// not hold.
pub fn row_numbers(nrows: usize, parts: &Vec<Vec<usize>>) -> (out: Vec<Option<i64>>)
    requires
        forall|p: int, i: int|
            0 <= p < parts@.len() && 0 <= i < parts@[p]@.len() ==> (#[trigger] parts@[p]@[i]) < nrows,
        rows_distinct(parts@.map_values(|v: Vec<usize>| v@)),
    ensures
        out@.len() == nrows,
        forall|row: int|
            0 <= row < nrows ==> #[trigger] out@[row] == row_number_of(parts@.map_values(|v: Vec<usize>| v@), row),
{
    let ghost pv = parts@.map_values(|v: Vec<usize>| v@);
    let mut out: Vec<Option<i64>> = Vec::new();
    for k in 0..nrows
        invariant
            out@.len() == k,
            forall|j: int| 0 <= j < k ==> #[trigger] out@[j] is None,
    {
        out.push(None);
    }
    let np = parts.len();
    let mut p: usize = 0;
    while p < np
        invariant
            np == parts@.len() == pv.len(),
            pv == parts@.map_values(|v: Vec<usize>| v@),
            p <= np,
            out@.len() == nrows,
            rows_distinct(pv),
            forall|q: int, i: int| 0 <= q < pv.len() && 0 <= i < pv[q].len() ==> (#[trigger] pv[q][i]) < nrows,
            forall|row: int|
                0 <= row < nrows ==> #[trigger] out@[row] == if seen(pv, row, p as int, 0) {
                    row_number_of(pv, row)
                } else {
                    None
                },
        decreases np - p,
    {
        let part = &parts[p];
        assert(part@ == pv[p as int]);
        let len = part.len();
        let mut i: usize = 0;
        while i < len
            invariant
                np == parts@.len() == pv.len(),
                p < np,
                part@ == pv[p as int],
                len == part@.len(),
                i <= len,
                out@.len() == nrows,
                rows_distinct(pv),
                forall|q: int, j: int| 0 <= q < pv.len() && 0 <= j < pv[q].len() ==> (#[trigger] pv[q][j]) < nrows,
                forall|row: int|
                    0 <= row < nrows ==> #[trigger] out@[row] == if seen(pv, row, p as int, i as int) {
                        row_number_of(pv, row)
                    } else {
                        None
                    },
            decreases len - i,
        {
            let row = part[i];
            assert(pv[p as int][i as int] == row);
            proof {
                lemma_position_unique(pv, row as int, p as int, i as int);
            }
            let ghost old_out = out@;
            out.set(row, Some((i + 1) as i64));
            proof {
                assert forall|r: int| 0 <= r < nrows implies #[trigger] out@[r] == if seen(pv, r, p as int, i + 1) {
                    row_number_of(pv, r)
                } else {
                    None
                } by {
                    if r == row as int {
                        assert(located(pv, r, p as int, i as int));
                        assert(seen(pv, r, p as int, i + 1));
                        if seen(pv, r, p as int, i as int) {
                            let (p2, i2) = choose|p2: int, i2: int| located(pv, r, p2, i2) && (p2 < p || (p2 == p && i2 < i));
                            assert(located(pv, pv[p2][i2] as int, p2, i2));
                            assert(located(pv, pv[p as int][i as int] as int, p as int, i as int));
                        }
                    } else {
                        assert(out@[r] == old_out[r]);
                        if seen(pv, r, p as int, i + 1) {
                            let (p2, i2) = choose|p2: int, i2: int| located(pv, r, p2, i2) && (p2 < p || (p2 == p && i2 < i + 1));
                            assert(i2 != i || p2 != p);
                            assert(seen(pv, r, p as int, i as int));
                        } else {
                            assert(!seen(pv, r, p as int, i as int));
                        }
                    }
                }
            }
            i = i + 1;
        }
        proof {
            assert forall|r: int| 0 <= r < nrows implies #[trigger] out@[r] == if seen(pv, r, p + 1, 0) {
                row_number_of(pv, r)
            } else {
                None
            } by {
                if seen(pv, r, p + 1, 0) {
                    let (p2, i2) = choose|p2: int, i2: int| located(pv, r, p2, i2) && (p2 < p + 1 || (p2 == p + 1 && i2 < 0));
                    assert(seen(pv, r, p as int, len as int));
                } else {
                    if seen(pv, r, p as int, len as int) {
                        let (p2, i2) = choose|p2: int, i2: int| located(pv, r, p2, i2) && (p2 < p || (p2 == p && i2 < len));
                        assert(seen(pv, r, p + 1, 0));
                    }
                }
            }
        }
        p = p + 1;
    }
    proof {
        assert forall|r: int| 0 <= r < nrows implies #[trigger] out@[r] == row_number_of(pv, r) by {
            if !seen(pv, r, np as int, 0) {
                if exists|p2: int, i2: int| located(pv, r, p2, i2) {
                    let (p2, i2) = choose|p2: int, i2: int| located(pv, r, p2, i2);
                    assert(seen(pv, r, np as int, 0));
                }
            }
        }
    }
    out
}

} // verus!
