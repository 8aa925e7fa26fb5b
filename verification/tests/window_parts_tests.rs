use subms_ts::window::{column_kind_of, gather, row_numbers, shift_sources, sub_frame, TsNullColumn};
use subms_ts::{TsCell, TsColumn, TsDataType, TsValueKind};

#[derive(Copy, Clone, Debug, PartialEq)]
struct F(f64);

impl TsValueKind for F {
    fn spec_is_present(&self) -> bool {
        self.0.is_finite()
    }
    fn ts_is_present(&self) -> bool {
        self.0.is_finite()
    }
}

type Cell = TsCell<F, String>;

fn f(v: f64) -> Option<Cell> {
    Some(TsCell::F64(F(v)))
}

#[test]
fn lag_sources_leave_each_partition_head_undefined() {
    // Two partitions interleaved over five rows: {0, 2, 4} and {1, 3}.
    let parts = vec![vec![0, 2, 4], vec![1, 3]];
    assert_eq!(shift_sources(5, &parts, 1), vec![None, None, Some(0), Some(1), Some(2)]);
    // lead(1): each row takes the next one of its partition; tails undefined.
    assert_eq!(shift_sources(5, &parts, -1), vec![Some(2), Some(3), Some(4), None, None]);
    // lag(2) reaches two back.
    assert_eq!(shift_sources(5, &parts, 2), vec![None, None, None, None, Some(0)]);
}

#[test]
fn row_numbers_count_within_each_partition() {
    let parts = vec![vec![0, 2, 4], vec![1, 3]];
    assert_eq!(row_numbers(6, &parts), vec![Some(1), Some(1), Some(2), Some(2), Some(3), None]);
}

#[test]
fn gather_copies_cells_of_the_column_type_and_marks_gaps_invalid() {
    let input = vec![f(10.0), None, f(12.0), Some(TsCell::Str("x".to_string()))];
    let src = vec![None, Some(0), Some(1), Some(2), Some(3)];
    assert_eq!(column_kind_of(&input), TsDataType::F64);
    assert_eq!(
        gather(&input, &src),
        TsNullColumn::F64(vec![None, Some(F(10.0)), None, Some(F(12.0)), None])
    );
    let words: Vec<Option<Cell>> = vec![None, Some(TsCell::Str("a".to_string())), Some(TsCell::I64(3))];
    assert_eq!(column_kind_of(&words), TsDataType::Str);
    assert_eq!(
        gather(&words, &vec![Some(1), Some(2), None]),
        TsNullColumn::Str(vec![Some("a".to_string()), None, None])
    );
    // A column with no scalar cell defaults to the float type.
    let empty: Vec<Option<Cell>> = vec![None, Some(TsCell::Value("doc".to_string()))];
    assert_eq!(gather(&empty, &vec![Some(0), Some(1)]), TsNullColumn::F64(vec![None, None]));
}

#[test]
fn sub_frame_restamps_a_partition_in_order() {
    let names = vec!["px".to_string(), "sym".to_string()];
    let columns = vec![
        vec![f(1.0), f(2.0), None, f(4.0)],
        vec![
            Some(TsCell::Str("A".to_string())),
            Some(TsCell::Str("B".to_string())),
            Some(TsCell::Str("A".to_string())),
            Some(TsCell::Str("B".to_string())),
        ],
    ];
    let df = sub_frame(&names, &columns, &vec![3, 2, 0]);
    assert_eq!(df.column_names(), vec!["px", "sym"]);
    match df.column("px").unwrap() {
        TsColumn::F64(s) => {
            let pts: Vec<(i64, f64)> = s.iter().into_iter().map(|p| (p.ts, p.value.0)).collect();
            assert_eq!(pts, vec![(0, 4.0), (2, 1.0)]);
        }
        _ => panic!("px keeps its float type"),
    }
    match df.column("sym").unwrap() {
        TsColumn::Str(s) => {
            let pts: Vec<(i64, String)> = s.iter().into_iter().map(|p| (p.ts, p.value)).collect();
            assert_eq!(pts, vec![(0, "B".to_string()), (1, "A".to_string()), (2, "A".to_string())]);
        }
        _ => panic!("sym keeps its string type"),
    }
}
