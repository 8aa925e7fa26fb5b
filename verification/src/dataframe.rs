//! [`TsDataFrame`]: a heterogeneous bag of named, typed columns, each a
//! time series of its own element type. The stored columns never hold nulls
//! (a series refuses them on push); gaps appear only in the row-aligned view,
//! as `None` where a column has no point at a row's stamp.
//!
//! The floating-point column's value type `F` and the document column's
//! value type `V` are parameters: the frame never reads those values, it
//! only carries and copies them.

use vstd::prelude::*;

use crate::panel::TsPanelAligned;
use crate::point::{points_cloned, point_cloned, TsPoint};
use crate::series::{ts_sorted, TsSeries};
use crate::text::{str_eq, TsIntoString};
use crate::TsError;

verus! {

/// The element type of a frame column. `Value` is the unstructured escape
/// hatch (a column of value documents).
#[derive(Copy, Clone, Debug, PartialEq, Eq)]
pub enum TsDataType {
    F64,
    I64,
    Bool,
    Str,
    Value,
}

/// One named, typed column slot in a [`TsFrameSchema`].
#[derive(Clone, Debug, PartialEq, Eq)]
pub struct TsField {
    pub name: String,
    pub data_type: TsDataType,
}

impl TsField {
    pub fn new(name: impl TsIntoString, data_type: TsDataType) -> (f: Self)
        ensures
            f.name@ == name.text_view(),
            f.data_type == data_type,
    {
        TsField { name: name.into_ts_string(), data_type }
    }
}

/// The ordered (name, type) shape of a frame: distinct from the per-series
/// schema, which describes a single series' value layout.
#[derive(Clone, Debug, PartialEq, Eq)]
pub struct TsFrameSchema {
    pub fields: Vec<TsField>,
}

/// One cell of a frame, tagged by its column's element type.
#[derive(Debug, PartialEq)]
pub enum TsCell<F, V> {
    F64(F),
    I64(i64),
    Bool(bool),
    Str(String),
    Value(V),
}

/// `b` is a copy of `a`: the same variant, and a payload that is a clone of
/// `a`'s.
pub open spec fn cell_cloned<F: Clone, V: Clone>(a: TsCell<F, V>, b: TsCell<F, V>) -> bool {
    match (a, b) {
        (TsCell::F64(x), TsCell::F64(y)) => cloned(x, y),
        (TsCell::I64(x), TsCell::I64(y)) => x == y,
        (TsCell::Bool(x), TsCell::Bool(y)) => x == y,
        (TsCell::Str(x), TsCell::Str(y)) => x == y,
        (TsCell::Value(x), TsCell::Value(y)) => cloned(x, y),
        _ => false,
    }
}

impl<F: Clone, V: Clone> Clone for TsCell<F, V> {
    fn clone(&self) -> (c: Self)
        ensures
            cell_cloned(*self, c),
    {
        match self {
            TsCell::F64(x) => TsCell::F64(x.clone()),
            TsCell::I64(x) => TsCell::I64(*x),
            TsCell::Bool(x) => TsCell::Bool(*x),
            TsCell::Str(x) => TsCell::Str(x.clone()),
            TsCell::Value(x) => TsCell::Value(x.clone()),
        }
    }
}

/// A typed column: a time series of one element type. The variant names
/// the element type.
#[derive(Debug)]
pub enum TsColumn<F, V> {
    F64(TsSeries<F>),
    I64(TsSeries<i64>),
    Bool(TsSeries<bool>),
    Str(TsSeries<String>),
    Value(TsSeries<V>),
}

/// The element type of a column.
pub open spec fn column_type<F, V>(c: TsColumn<F, V>) -> TsDataType {
    match c {
        TsColumn::F64(_) => TsDataType::F64,
        TsColumn::I64(_) => TsDataType::I64,
        TsColumn::Bool(_) => TsDataType::Bool,
        TsColumn::Str(_) => TsDataType::Str,
        TsColumn::Value(_) => TsDataType::Value,
    }
}

/// A column's points, each value tagged as a cell.
pub open spec fn column_points<F, V>(c: TsColumn<F, V>) -> Seq<TsPoint<TsCell<F, V>>> {
    match c {
        TsColumn::F64(s) => s@.map_values(|p: TsPoint<F>| TsPoint { ts: p.ts, value: TsCell::F64(p.value) }),
        TsColumn::I64(s) => s@.map_values(|p: TsPoint<i64>| TsPoint { ts: p.ts, value: TsCell::I64(p.value) }),
        TsColumn::Bool(s) => s@.map_values(|p: TsPoint<bool>| TsPoint { ts: p.ts, value: TsCell::Bool(p.value) }),
        TsColumn::Str(s) => s@.map_values(
            |p: TsPoint<String>| TsPoint { ts: p.ts, value: TsCell::Str(p.value) },
        ),
        TsColumn::Value(s) => s@.map_values(|p: TsPoint<V>| TsPoint { ts: p.ts, value: TsCell::Value(p.value) }),
    }
}

/// `b` is `a` copied: the same variant, its series copied point by point.
pub open spec fn column_cloned<F: Clone, V: Clone>(a: TsColumn<F, V>, b: TsColumn<F, V>) -> bool {
    match (a, b) {
        (TsColumn::F64(x), TsColumn::F64(y)) => points_cloned(x@, y@),
        (TsColumn::I64(x), TsColumn::I64(y)) => points_cloned(x@, y@),
        (TsColumn::Bool(x), TsColumn::Bool(y)) => points_cloned(x@, y@),
        (TsColumn::Str(x), TsColumn::Str(y)) => points_cloned(x@, y@),
        (TsColumn::Value(x), TsColumn::Value(y)) => points_cloned(x@, y@),
        _ => false,
    }
}

/// `b` is `a` with every cell copied.
pub open spec fn cells_cloned<F: Clone, V: Clone>(
    a: Seq<TsPoint<TsCell<F, V>>>,
    b: Seq<TsPoint<TsCell<F, V>>>,
) -> bool {
    &&& b.len() == a.len()
    &&& forall|i: int|
        0 <= i < a.len() ==> #[trigger] b[i].ts == a[i].ts && cell_cloned(a[i].value, b[i].value)
}

/// Tags each point's value with `tag`, in order.
fn tag_points<X, F, V, G: Fn(X) -> TsCell<F, V>>(pts: Vec<TsPoint<X>>, tag: G) -> (v: Vec<TsPoint<TsCell<F, V>>>)
    requires
        forall|x: X| tag.requires((x,)),
    ensures
        v@.len() == pts@.len(),
        forall|i: int|
            0 <= i < pts@.len() ==> #[trigger] v@[i].ts == pts@[i].ts && tag.ensures(
                (pts@[i].value,),
                v@[i].value,
            ),
{
    let ghost ps = pts@;
    let n = pts.len();
    let mut v: Vec<TsPoint<TsCell<F, V>>> = Vec::new();
    let mut k: usize = 0;
    for p in it: pts.into_iter()
        invariant
            it.seq() == ps,
            n == ps.len(),
            k == it.index(),
            k <= n,
            v@.len() == k,
            forall|x: X| tag.requires((x,)),
            forall|i: int|
                0 <= i < k ==> #[trigger] v@[i].ts == ps[i].ts && tag.ensures((ps[i].value,), v@[i].value),
    {
        let TsPoint { ts, value } = p;
        let c = tag(value);
        v.push(TsPoint { ts, value: c });
        k = k + 1;
    }
    v
}

impl<F: Clone, V: Clone> TsColumn<F, V> {
    pub fn data_type(&self) -> (t: TsDataType)
        ensures
            t == column_type(*self),
    {
        match self {
            TsColumn::F64(_) => TsDataType::F64,
            TsColumn::I64(_) => TsDataType::I64,
            TsColumn::Bool(_) => TsDataType::Bool,
            TsColumn::Str(_) => TsDataType::Str,
            TsColumn::Value(_) => TsDataType::Value,
        }
    }

    pub fn len(&self) -> (n: usize)
        ensures
            n == column_points(*self).len(),
    {
        match self {
            TsColumn::F64(s) => s.len(),
            TsColumn::I64(s) => s.len(),
            TsColumn::Bool(s) => s.len(),
            TsColumn::Str(s) => s.len(),
            TsColumn::Value(s) => s.len(),
        }
    }

    pub fn is_empty(&self) -> (b: bool)
        ensures
            b == (column_points(*self).len() == 0),
    {
        self.len() == 0
    }

    pub fn as_f64(&self) -> (r: Option<&TsSeries<F>>)
        ensures
            match *self {
                TsColumn::F64(s) => r == Some(&s),
                _ => r is None,
            },
    {
        match self {
            TsColumn::F64(s) => Some(s),
            _ => None,
        }
    }

    pub fn as_i64(&self) -> (r: Option<&TsSeries<i64>>)
        ensures
            match *self {
                TsColumn::I64(s) => r == Some(&s),
                _ => r is None,
            },
    {
        match self {
            TsColumn::I64(s) => Some(s),
            _ => None,
        }
    }

    pub fn as_bool(&self) -> (r: Option<&TsSeries<bool>>)
        ensures
            match *self {
                TsColumn::Bool(s) => r == Some(&s),
                _ => r is None,
            },
    {
        match self {
            TsColumn::Bool(s) => Some(s),
            _ => None,
        }
    }

    pub fn as_str(&self) -> (r: Option<&TsSeries<String>>)
        ensures
            match *self {
                TsColumn::Str(s) => r == Some(&s),
                _ => r is None,
            },
    {
        match self {
            TsColumn::Str(s) => Some(s),
            _ => None,
        }
    }

    pub fn as_value(&self) -> (r: Option<&TsSeries<V>>)
        ensures
            match *self {
                TsColumn::Value(s) => r == Some(&s),
                _ => r is None,
            },
    {
        match self {
            TsColumn::Value(s) => Some(s),
            _ => None,
        }
    }

    /// The cell at the exact stamp `ts` (the first point carrying it), as a
    /// copy; `None` when no point carries it.
    pub fn get(&self, ts: i64) -> (r: Option<TsCell<F, V>>)
        ensures
            match r {
                None => forall|i: int|
                    0 <= i < column_points(*self).len() ==> column_points(*self)[i].ts != ts,
                Some(c) => exists|i: int|
                    0 <= i < column_points(*self).len() && column_points(*self)[i].ts == ts
                        && (forall|j: int| 0 <= j < i ==> column_points(*self)[j].ts != ts)
                        && cell_cloned(column_points(*self)[i].value, c),
            },
    {
        let mut pts = self.cell_points();
        let mut i: usize = 0;
        while i < pts.len()
            invariant
                i <= pts@.len(),
                cells_cloned(column_points(*self), pts@),
                forall|j: int| 0 <= j < i ==> column_points(*self)[j].ts != ts,
            decreases pts@.len() - i,
        {
            assert(pts@[i as int].ts == column_points(*self)[i as int].ts);
            if pts[i].ts == ts {
                let ghost before = pts@;
                let p = pts.remove(i);
                assert(p == before[i as int]);
                return Some(p.value);
            }
            i = i + 1;
        }
        None
    }

    /// The column's points, each value tagged as a cell and copied.
    fn cell_points(&self) -> (v: Vec<TsPoint<TsCell<F, V>>>)
        ensures
            cells_cloned(column_points(*self), v@),
            ts_sorted(v@),
    {
        match self {
            TsColumn::F64(s) => {
                let pts = s.iter();
                let v = tag_points(pts, |x: F| -> (c: TsCell<F, V>) ensures c == TsCell::<F, V>::F64(x) { TsCell::F64(x) });
                assert forall|i: int| 0 <= i < column_points(*self).len() implies #[trigger] v@[i].ts == column_points(*self)[i].ts
                    && cell_cloned(column_points(*self)[i].value, v@[i].value) by {
                    assert(point_cloned(s@[i], pts@[i]));
                }
                v
            },
            TsColumn::I64(s) => {
                let pts = s.iter();
                let v = tag_points(pts, |x: i64| -> (c: TsCell<F, V>) ensures c == TsCell::<F, V>::I64(x) { TsCell::I64(x) });
                assert forall|i: int| 0 <= i < column_points(*self).len() implies #[trigger] v@[i].ts == column_points(*self)[i].ts
                    && cell_cloned(column_points(*self)[i].value, v@[i].value) by {
                    assert(point_cloned(s@[i], pts@[i]));
                }
                v
            },
            TsColumn::Bool(s) => {
                let pts = s.iter();
                let v = tag_points(pts, |x: bool| -> (c: TsCell<F, V>) ensures c == TsCell::<F, V>::Bool(x) { TsCell::Bool(x) });
                assert forall|i: int| 0 <= i < column_points(*self).len() implies #[trigger] v@[i].ts == column_points(*self)[i].ts
                    && cell_cloned(column_points(*self)[i].value, v@[i].value) by {
                    assert(point_cloned(s@[i], pts@[i]));
                }
                v
            },
            TsColumn::Str(s) => {
                let pts = s.iter();
                let v = tag_points(pts, |x: String| -> (c: TsCell<F, V>) ensures c == TsCell::<F, V>::Str(x) { TsCell::Str(x) });
                assert forall|i: int| 0 <= i < column_points(*self).len() implies #[trigger] v@[i].ts == column_points(*self)[i].ts
                    && cell_cloned(column_points(*self)[i].value, v@[i].value) by {
                    assert(point_cloned(s@[i], pts@[i]));
                }
                v
            },
            TsColumn::Value(s) => {
                let pts = s.iter();
                let ghost pv = pts@;
                let v = tag_points(pts, |x: V| -> (c: TsCell<F, V>) ensures c == TsCell::<F, V>::Value(x) { TsCell::Value(x) });
                assert forall|i: int| 0 <= i < column_points(*self).len() implies #[trigger] v@[i].ts == column_points(*self)[i].ts
                    && cell_cloned(column_points(*self)[i].value, v@[i].value) by {
                    assert(point_cloned(s@[i], pv[i]));
                    assert(v@[i].ts == pv[i].ts);
                    assert(v@[i].value == TsCell::<F, V>::Value(pv[i].value));
                    assert(column_points(*self)[i] == TsPoint { ts: s@[i].ts, value: TsCell::<F, V>::Value(s@[i].value) });
                }
                v
            },
        }
    }

    /// A copy of the column: the same element type, its series cloned.
    fn duplicate(&self) -> (c: Self)
        ensures
            column_cloned(*self, c),
    {
        match self {
            TsColumn::F64(s) => TsColumn::F64(s.clone()),
            TsColumn::I64(s) => TsColumn::I64(s.clone()),
            TsColumn::Bool(s) => TsColumn::Bool(s.clone()),
            TsColumn::Str(s) => TsColumn::Str(s.clone()),
            TsColumn::Value(s) => TsColumn::Value(s.clone()),
        }
    }
}

/// `i` is the first position of `name` in `names`.
pub open spec fn first_with(names: Seq<Seq<char>>, name: Seq<char>, i: int) -> bool {
    &&& 0 <= i < names.len()
    &&& names[i] == name
    &&& forall|j: int| 0 <= j < i ==> names[j] != name
}

/// The requested names that `have` holds, in request order.
pub open spec fn selected_names(req: Seq<Seq<char>>, have: Seq<Seq<char>>) -> Seq<Seq<char>>
    decreases req.len(),
{
    if req.len() == 0 {
        Seq::empty()
    } else {
        selected_names(req.drop_last(), have) + if have.contains(req.last()) {
            seq![req.last()]
        } else {
            Seq::<Seq<char>>::empty()
        }
    }
}

/// Column `k` of (`names`, `cols`) is a copy of the first column of
/// (`from_names`, `from_cols`) with the same name.
pub open spec fn copied_at<F: Clone, V: Clone>(
    from_names: Seq<Seq<char>>,
    from_cols: Seq<TsColumn<F, V>>,
    names: Seq<Seq<char>>,
    cols: Seq<TsColumn<F, V>>,
    k: int,
) -> bool {
    exists|i: int| first_with(from_names, names[k], i) && column_cloned(from_cols[i], cols[k])
}

/// Every column of (`names`, `cols`) is such a copy.
pub open spec fn copied_from<F: Clone, V: Clone>(
    from_names: Seq<Seq<char>>,
    from_cols: Seq<TsColumn<F, V>>,
    names: Seq<Seq<char>>,
    cols: Seq<TsColumn<F, V>>,
) -> bool {
    forall|k: int| 0 <= k < names.len() ==> #[trigger] copied_at(from_names, from_cols, names, cols, k)
}

/// A heterogeneous bag of named, typed columns. Insertion order is the
/// frame's column order.
#[derive(Debug)]
pub struct TsDataFrame<F, V> {
    entries: Vec<(String, TsColumn<F, V>)>,
}

impl<F, V> TsDataFrame<F, V> {
    /// The column names, in column order.
    pub closed spec fn spec_names(&self) -> Seq<Seq<char>> {
        self.entries@.map_values(|e: (String, TsColumn<F, V>)| e.0@)
    }

    /// The columns, in column order.
    pub closed spec fn spec_columns(&self) -> Seq<TsColumn<F, V>> {
        self.entries@.map_values(|e: (String, TsColumn<F, V>)| e.1)
    }
}

impl<F: Clone, V: Clone> Default for TsDataFrame<F, V> {
    fn default() -> (df: Self)
        ensures
            df.spec_names() == Seq::<Seq<char>>::empty(),
            df.spec_columns() == Seq::<TsColumn<F, V>>::empty(),
    {
        TsDataFrame::new()
    }
}

impl<F: Clone, V: Clone> TsDataFrame<F, V> {
    pub fn new() -> (df: Self)
        ensures
            df.spec_names() == Seq::<Seq<char>>::empty(),
            df.spec_columns() == Seq::<TsColumn<F, V>>::empty(),
    {
        let df = TsDataFrame { entries: Vec::new() };
        assert(df.spec_names() =~= Seq::<Seq<char>>::empty());
        assert(df.spec_columns() =~= Seq::<TsColumn<F, V>>::empty());
        df
    }

    /// Position of the first column named `name`.
    fn index_of(&self, name: &str) -> (r: Option<usize>)
        ensures
            match r {
                Some(i) => first_with(self.spec_names(), name@, i as int),
                None => !self.spec_names().contains(name@),
            },
    {
        let mut i: usize = 0;
        while i < self.entries.len()
            invariant
                i <= self.entries@.len(),
                forall|j: int| 0 <= j < i ==> self.spec_names()[j] != name@,
            decreases self.entries@.len() - i,
        {
            if str_eq(self.entries[i].0.as_str(), name) {
                return Some(i);
            }
            i = i + 1;
        }
        proof {
            if self.spec_names().contains(name@) {
                let k = choose|k: int| 0 <= k < self.spec_names().len() && self.spec_names()[k] == name@;
                assert(self.spec_names()[k] != name@);
            }
        }
        None
    }

    /// Builder add. The name must not already name a column.
    pub fn with_column(self, name: impl TsIntoString, col: TsColumn<F, V>) -> (df: Self)
        requires
            !self.spec_names().contains(name.text_view()),
        ensures
            df.spec_names() == self.spec_names().push(name.text_view()),
            df.spec_columns() == self.spec_columns().push(col),
    {
        let mut df = self;
        let name = name.into_ts_string();
        let ghost before = df.entries@;
        df.entries.push((name, col));
        assert(df.spec_names() =~= before.map_values(|e: (String, TsColumn<F, V>)| e.0@).push(name@));
        assert(df.spec_columns() =~= before.map_values(|e: (String, TsColumn<F, V>)| e.1).push(col));
        df
    }

    /// Append a column; a name that already names a column is refused with
    /// `DuplicateColumn`, leaving the frame as it was.
    pub fn push_column(&mut self, name: impl TsIntoString, col: TsColumn<F, V>) -> (r: Result<(), TsError>)
        ensures
            if old(self).spec_names().contains(name.text_view()) {
                &&& r matches Err(TsError::DuplicateColumn { name: n }) && n@ == name.text_view()
                &&& final(self).spec_names() == old(self).spec_names()
                &&& final(self).spec_columns() == old(self).spec_columns()
            } else {
                &&& r is Ok
                &&& final(self).spec_names() == old(self).spec_names().push(name.text_view())
                &&& final(self).spec_columns() == old(self).spec_columns().push(col)
            },
    {
        let name = name.into_ts_string();
        if self.index_of(name.as_str()).is_some() {
            return Err(TsError::DuplicateColumn { name });
        }
        let ghost before = self.entries@;
        self.entries.push((name, col));
        assert(self.spec_names() =~= before.map_values(|e: (String, TsColumn<F, V>)| e.0@).push(name@));
        assert(self.spec_columns() =~= before.map_values(|e: (String, TsColumn<F, V>)| e.1).push(col));
        Ok(())
    }

    /// The first column named `name`.
    pub fn column(&self, name: &str) -> (r: Option<&TsColumn<F, V>>)
        ensures
            match r {
                Some(c) => exists|i: int| first_with(self.spec_names(), name@, i) && *c == self.spec_columns()[i],
                None => !self.spec_names().contains(name@),
            },
    {
        match self.index_of(name) {
            Some(i) => Some(&self.entries[i].1),
            None => None,
        }
    }

    /// The column names, in column order.
    pub fn column_names(&self) -> (r: Vec<&str>)
        ensures
            r@.map_values(|n: &str| n@) == self.spec_names(),
    {
        let mut r: Vec<&str> = Vec::new();
        for i in 0..self.entries.len()
            invariant
                r@.map_values(|n: &str| n@) == self.spec_names().take(i as int),
        {
            let ghost prev = r@;
            r.push(self.entries[i].0.as_str());
            assert(r@.map_values(|n: &str| n@) =~= prev.map_values(|n: &str| n@).push(self.spec_names()[i as int]));
            assert(self.spec_names().take(i + 1) =~= self.spec_names().take(i as int).push(self.spec_names()[i as int]));
        }
        assert(self.spec_names().take(self.spec_names().len() as int) =~= self.spec_names());
        r
    }

    /// The frame's (name, type) shape, in column order.
    pub fn schema(&self) -> (s: TsFrameSchema)
        ensures
            s.fields@.len() == self.spec_names().len(),
            forall|i: int|
                0 <= i < s.fields@.len() ==> #[trigger] s.fields@[i].name@ == self.spec_names()[i]
                    && s.fields@[i].data_type == column_type(self.spec_columns()[i]),
    {
        let mut fields: Vec<TsField> = Vec::new();
        let n = self.entries.len();
        let mut i: usize = 0;
        while i < n
            invariant
                n == self.entries@.len(),
                i <= n,
                fields@.len() == i,
                forall|k: int|
                    0 <= k < i ==> (#[trigger] fields@[k]).name@ == self.spec_names()[k]
                        && fields@[k].data_type == column_type(self.spec_columns()[k]),
            decreases n - i,
        {
            let name = self.entries[i].0.clone();
            let data_type = self.entries[i].1.data_type();
            assert(self.spec_names()[i as int] == self.entries@[i as int].0@);
            assert(self.spec_columns()[i as int] == self.entries@[i as int].1);
            fields.push(TsField { name, data_type });
            i = i + 1;
        }
        TsFrameSchema { fields }
    }

    pub fn ncols(&self) -> (n: usize)
        ensures
            n == self.spec_names().len(),
    {
        self.entries.len()
    }

    pub fn is_empty(&self) -> (b: bool)
        ensures
            b == (self.spec_names().len() == 0),
    {
        self.entries.len() == 0
    }

    /// Projection: a new frame holding copies of the named columns, in the
    /// requested order; unknown names are skipped.
    pub fn select(&self, names: &[&str]) -> (df: Self)
        ensures
            df.spec_names() == selected_names(names@.map_values(|n: &str| n@), self.spec_names()),
            df.spec_columns().len() == df.spec_names().len(),
            copied_from(self.spec_names(), self.spec_columns(), df.spec_names(), df.spec_columns()),
    {
        let ghost req = names@.map_values(|n: &str| n@);
        let mut out: Vec<(String, TsColumn<F, V>)> = Vec::new();
        let ghost mut src: Seq<int> = Seq::empty();
        for k in 0..names.len()
            invariant
                req == names@.map_values(|n: &str| n@),
                out@.map_values(|e: (String, TsColumn<F, V>)| e.0@) == selected_names(req.take(k as int), self.spec_names()),
                src.len() == out@.len(),
                forall|m: int|
                    0 <= m < out@.len() ==> first_with(self.spec_names(), (#[trigger] out@[m]).0@, src[m])
                        && column_cloned(self.spec_columns()[src[m]], out@[m].1),
        {
            let ghost prev = out@;
            proof {
                assert(req.take(k + 1).drop_last() =~= req.take(k as int));
                assert(req.take(k + 1).last() == names@[k as int]@);
            }
            match self.index_of(names[k]) {
                Some(i) => {
                    let n = self.entries[i].0.clone();
                    let c = self.entries[i].1.duplicate();
                    out.push((n, c));
                    proof {
                        src = src.push(i as int);
                        assert(self.spec_names()[i as int] == self.entries@[i as int].0@);
                        assert(self.spec_columns()[i as int] == self.entries@[i as int].1);
                        assert(self.spec_names().contains(names@[k as int]@));
                        assert(out@.map_values(|e: (String, TsColumn<F, V>)| e.0@) =~= prev.map_values(
                            |e: (String, TsColumn<F, V>)| e.0@,
                        ).push(names@[k as int]@));
                        assert forall|m: int| 0 <= m < out@.len() implies first_with(
                            self.spec_names(),
                            (#[trigger] out@[m]).0@,
                            src[m],
                        ) && column_cloned(self.spec_columns()[src[m]], out@[m].1) by {
                            if m < prev.len() {
                                assert(out@[m] == prev[m]);
                            }
                        }
                    }
                },
                None => {
                    proof {
                        assert(selected_names(req.take(k + 1), self.spec_names()) =~= selected_names(
                            req.take(k as int),
                            self.spec_names(),
                        ));
                    }
                },
            }
        }
        assert(req.take(names@.len() as int) =~= req);
        let ghost ov = out@;
        let df = TsDataFrame { entries: out };
        assert forall|k: int| 0 <= k < df.spec_names().len() implies #[trigger] copied_at(
            self.spec_names(),
            self.spec_columns(),
            df.spec_names(),
            df.spec_columns(),
            k,
        ) by {
            assert(df.spec_names()[k] == ov[k].0@);
            assert(df.spec_columns()[k] == ov[k].1);
            assert(first_with(self.spec_names(), ov[k].0@, src[k]));
            assert(column_cloned(self.spec_columns()[src[k]], df.spec_columns()[k]));
        }
        df
    }

    /// Remove and return the first column named `name`.
    pub fn drop(&mut self, name: &str) -> (r: Option<TsColumn<F, V>>)
        ensures
            match r {
                None => !old(self).spec_names().contains(name@) && final(self).spec_names()
                    == old(self).spec_names() && final(self).spec_columns() == old(self).spec_columns(),
                Some(c) => exists|i: int|
                    first_with(old(self).spec_names(), name@, i) && c == old(self).spec_columns()[i]
                        && final(self).spec_names() == old(self).spec_names().remove(i)
                        && final(self).spec_columns() == old(self).spec_columns().remove(i),
            },
    {
        match self.index_of(name) {
            Some(i) => {
                let ghost before = self.entries@;
                let (_, c) = self.entries.remove(i);
                assert(self.spec_names() =~= before.map_values(|e: (String, TsColumn<F, V>)| e.0@).remove(
                    i as int,
                ));
                assert(self.spec_columns() =~= before.map_values(|e: (String, TsColumn<F, V>)| e.1).remove(
                    i as int,
                ));
                Some(c)
            },
            None => None,
        }
    }

    /// Rename the first column named `from` to `to`. Refused (`false`, no
    /// change) when `from` names no column, or when `to` already names a
    /// column and differs from `from`.
    pub fn rename(&mut self, from: &str, to: &str) -> (b: bool)
        ensures
            final(self).spec_columns() == old(self).spec_columns(),
            b == (old(self).spec_names().contains(from@) && (from@ == to@ || !old(
                self,
            ).spec_names().contains(to@))),
            b ==> exists|i: int|
                first_with(old(self).spec_names(), from@, i) && final(self).spec_names() == old(
                    self,
                ).spec_names().update(i, to@),
            !b ==> final(self).spec_names() == old(self).spec_names(),
    {
        let i = match self.index_of(from) {
            Some(i) => i,
            None => {
                return false;
            },
        };
        if !str_eq(from, to) && self.index_of(to).is_some() {
            return false;
        }
        let ghost before = self.entries@;
        let (_, c) = self.entries.remove(i);
        self.entries.insert(i, (to.to_owned(), c));
        assert(self.spec_names() =~= before.map_values(|e: (String, TsColumn<F, V>)| e.0@).update(
            i as int,
            to@,
        ));
        assert(self.spec_columns() =~= before.map_values(|e: (String, TsColumn<F, V>)| e.1));
        true
    }

    /// Row-aligned view over the union of every column's stamps: see
    /// [`TsPanelAligned::next`]. Each row holds, per column in order, a copy
    /// of its cell at the row's stamp, or `None` where the column has no
    /// point there.
    pub fn aligned(&self) -> (a: TsPanelAligned<TsCell<F, V>>)
        ensures
            a.wf(),
            a.columns().len() == self.spec_columns().len(),
            forall|j: int|
                0 <= j < self.spec_columns().len() ==> cells_cloned(
                    column_points(self.spec_columns()[j]),
                    #[trigger] a.columns()[j],
                ),
            a.cursors() == Seq::new(self.spec_columns().len(), |i: int| 0int),
    {
        let mut columns: Vec<Vec<TsPoint<TsCell<F, V>>>> = Vec::new();
        for i in 0..self.entries.len()
            invariant
                columns@.len() == i,
                forall|j: int|
                    0 <= j < i ==> cells_cloned(
                        column_points(self.spec_columns()[j]),
                        (#[trigger] columns@[j])@,
                    ),
                forall|j: int| 0 <= j < i ==> ts_sorted((#[trigger] columns@[j])@),
        {
            columns.push(self.entries[i].1.cell_points());
        }
        let ghost cv = columns@;
        let a = TsPanelAligned::from_columns(columns);
        assert forall|j: int| 0 <= j < self.spec_columns().len() implies cells_cloned(
            column_points(self.spec_columns()[j]),
            #[trigger] a.columns()[j],
        ) by {
            assert(a.columns()[j] == cv[j]@);
        }
        a
    }
}

} // verus!
