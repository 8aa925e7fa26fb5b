use subms_ts::{TsCell, TsColumn, TsDataFrame, TsDataType, TsError, TsSeries, TsValueKind};

/// An `f64` observation: present when finite.
#[derive(Copy, Clone, Debug, PartialEq)]
struct F(f64);

impl TsValueKind for F {
    fn spec_is_present(&self) -> bool {
        self.0.is_finite()
    }
    fn ts_is_present(&self) -> bool {
        self.0.is_finite()
    }
}

/// A small value document.
#[derive(Clone, Debug, PartialEq)]
enum Doc {
    I64(i64),
    Str(String),
}

impl TsValueKind for Doc {
    fn spec_is_present(&self) -> bool {
        true
    }
    fn ts_is_present(&self) -> bool {
        true
    }
}

type Frame = TsDataFrame<F, Doc>;
type Column = TsColumn<F, Doc>;
type Cell = TsCell<F, Doc>;

fn f64_series(points: &[(i64, f64)]) -> TsSeries<F> {
    let mut s = TsSeries::new();
    for &(ts, v) in points {
        s.push(ts, F(v)).unwrap();
    }
    s
}

#[test]
fn column_f64_variant() {
    let col: Column = TsColumn::F64(f64_series(&[(1, 10.0), (2, 12.5)]));
    assert_eq!(col.data_type(), TsDataType::F64);
    assert_eq!(col.len(), 2);
    assert!(!col.is_empty());
    assert!(col.as_f64().is_some());
    assert!(col.as_i64().is_none());
    assert_eq!(col.get(2), Some(Cell::F64(F(12.5))));
    assert_eq!(col.get(3), None);
}

#[test]
fn column_i64_variant() {
    let mut s = TsSeries::<i64>::new();
    s.push(1, 100).unwrap();
    s.push(2, 250).unwrap();
    let col: Column = TsColumn::I64(s);
    assert_eq!(col.data_type(), TsDataType::I64);
    assert_eq!(col.len(), 2);
    assert!(col.as_i64().is_some());
    assert!(col.as_f64().is_none());
    assert_eq!(col.get(1), Some(Cell::I64(100)));
}

#[test]
fn column_bool_variant() {
    let mut s = TsSeries::<bool>::new();
    s.push(1, true).unwrap();
    s.push(2, false).unwrap();
    let col: Column = TsColumn::Bool(s);
    assert_eq!(col.data_type(), TsDataType::Bool);
    assert_eq!(col.len(), 2);
    assert!(col.as_bool().is_some());
    assert!(col.as_str().is_none());
    assert_eq!(col.get(2), Some(Cell::Bool(false)));
}

#[test]
fn column_str_variant() {
    let mut s = TsSeries::<String>::new();
    s.push(1, "AAPL".to_string()).unwrap();
    s.push(2, "MSFT".to_string()).unwrap();
    let col: Column = TsColumn::Str(s);
    assert_eq!(col.data_type(), TsDataType::Str);
    assert_eq!(col.len(), 2);
    assert!(col.as_str().is_some());
    assert!(col.as_value().is_none());
    assert_eq!(col.get(1), Some(Cell::Str("AAPL".to_string())));
}

#[test]
fn column_value_variant() {
    let mut s = TsSeries::<Doc>::new();
    s.push(1, Doc::I64(7)).unwrap();
    s.push(2, Doc::Str("x".into())).unwrap();
    let col: Column = TsColumn::Value(s);
    assert_eq!(col.data_type(), TsDataType::Value);
    assert_eq!(col.len(), 2);
    assert!(col.as_value().is_some());
    assert!(col.as_f64().is_none());
    assert_eq!(col.get(2), Some(Cell::Value(Doc::Str("x".into()))));
}

#[test]
fn column_empty_is_empty() {
    let col: Column = TsColumn::F64(TsSeries::new());
    assert!(col.is_empty());
    assert_eq!(col.len(), 0);
    assert_eq!(col.get(1), None);
}

fn mixed_frame() -> Frame {
    let mut price = TsSeries::<F>::new();
    price.push(1, F(100.0)).unwrap();
    price.push(2, F(101.5)).unwrap();
    let mut symbol = TsSeries::<String>::new();
    symbol.push(1, "AAPL".into()).unwrap();
    symbol.push(2, "AAPL".into()).unwrap();
    let mut volume = TsSeries::<i64>::new();
    volume.push(1, 500).unwrap();
    volume.push(2, 700).unwrap();
    TsDataFrame::new()
        .with_column("price", TsColumn::F64(price))
        .with_column("symbol", TsColumn::Str(symbol))
        .with_column("volume", TsColumn::I64(volume))
}

#[test]
fn dataframe_build_and_access() {
    let df = mixed_frame();
    assert_eq!(df.ncols(), 3);
    assert!(!df.is_empty());
    assert_eq!(df.column_names(), vec!["price", "symbol", "volume"]);
    assert_eq!(df.column("price").unwrap().data_type(), TsDataType::F64);
    assert_eq!(df.column("symbol").unwrap().data_type(), TsDataType::Str);
    assert!(df.column("missing").is_none());
}

#[test]
fn dataframe_schema_is_derived() {
    let df = mixed_frame();
    let schema = df.schema();
    assert_eq!(schema.fields.len(), 3);
    assert_eq!(schema.fields[0].name, "price");
    assert_eq!(schema.fields[0].data_type, TsDataType::F64);
    assert_eq!(schema.fields[2].name, "volume");
    assert_eq!(schema.fields[2].data_type, TsDataType::I64);
}

#[test]
fn dataframe_select_projects() {
    let df = mixed_frame();
    let proj = df.select(&["volume", "price"]);
    assert_eq!(proj.column_names(), vec!["volume", "price"]);
    assert!(proj.column("symbol").is_none());
    assert_eq!(proj.column("price").unwrap().get(1), Some(Cell::F64(F(100.0))));
}

#[test]
fn dataframe_drop_and_rename() {
    let mut df = mixed_frame();
    let dropped = df.drop("symbol");
    assert!(dropped.is_some());
    assert_eq!(df.ncols(), 2);
    assert!(df.column("symbol").is_none());

    assert!(df.rename("price", "px"));
    assert!(df.column("px").is_some());
    assert!(df.column("price").is_none());
    // renaming onto an existing name fails
    assert!(!df.rename("px", "volume"));
    // renaming a missing column fails
    assert!(!df.rename("nope", "whatever"));
}

#[test]
fn dataframe_duplicate_column_errors() {
    let mut df: Frame = TsDataFrame::new();
    df.push_column("a", TsColumn::F64(f64_series(&[(1, 1.0)]))).unwrap();
    let err = df.push_column("a", TsColumn::I64(TsSeries::new())).unwrap_err();
    assert_eq!(err, TsError::DuplicateColumn { name: "a".to_string() });
}

#[test]
fn dataframe_aligned_yields_gap_nulls() {
    // price has points at ts 1 and 3; symbol at ts 1 and 2. The union axis is
    // {1,2,3}; gaps surface as None per the aligned-view null convention.
    let mut price = TsSeries::<F>::new();
    price.push(1, F(100.0)).unwrap();
    price.push(3, F(102.0)).unwrap();
    let mut symbol = TsSeries::<String>::new();
    symbol.push(1, "AAPL".into()).unwrap();
    symbol.push(2, "AAPL".into()).unwrap();
    let df: Frame = TsDataFrame::new()
        .with_column("price", TsColumn::F64(price))
        .with_column("symbol", TsColumn::Str(symbol));

    let mut view = df.aligned();
    let mut rows: Vec<(i64, Vec<Option<Cell>>)> = Vec::new();
    while let Some(row) = view.next() {
        rows.push(row);
    }
    assert_eq!(
        rows,
        vec![
            (1, vec![Some(Cell::F64(F(100.0))), Some(Cell::Str("AAPL".into()))]),
            (2, vec![None, Some(Cell::Str("AAPL".into()))]),
            (3, vec![Some(Cell::F64(F(102.0))), None]),
        ]
    );
}

#[test]
fn dataframe_empty() {
    let df: Frame = TsDataFrame::new();
    assert!(df.is_empty());
    assert_eq!(df.ncols(), 0);
    assert!(df.aligned().next().is_none());
    assert_eq!(df.schema().fields.len(), 0);
}
