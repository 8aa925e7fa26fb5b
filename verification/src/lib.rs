//! Generic time-series core: ordered series of timestamped points, their
//! metadata, multi-series containers, latency-plan certificates, retention
//! policies, and the query-language front ends built over them.
//!
//! Timestamps are `i64` nanoseconds since the Unix epoch. A [`TsSeries<T>`]
//! is non-decreasing in timestamp; out-of-order and null observations are
//! rejected on ingest.

use vstd::prelude::*;

pub mod codec;
pub mod collection;
pub mod dataframe;
pub mod datetime;
pub mod lower;
pub mod meta;
pub mod panel;
pub mod plan;
pub mod resample;
pub mod retention;
pub mod roundtrip;
pub mod point;
pub mod promql;
pub mod sql;
pub mod series;
pub mod text;
pub mod vector;
pub mod wal;
pub mod window;

pub use codec::{TsCodec, TsCodecError, TsJsonCodec, TsTimestampStyle};
pub use collection::{TsAgg, TsCollection, TsCollectionError};
pub use panel::{TsPanel, TsPanelAligned, TsPanelGroup, TsPanelMetadata};
pub use plan::{TsLatencyCertificate, TsPlan, TsPlanStage};
pub use point::TsPoint;
pub use promql::{
    parse_duration_ns, simple_re_match, AggOp, BinOp, FuncKind, Grouping, LabelMatcher, MatchOp, Selector, TsPromQlError,
};
pub use dataframe::{TsCell, TsColumn, TsDataFrame, TsDataType, TsField, TsFrameSchema};
pub use resample::{resample_buckets, TsBucket, TsResampleMode};
pub use meta::{
    TsAttrs, TsDep, TsDepKind, TsFormat, TsNumericKind, TsSchema, TsSeriesMetadata, TsTags,
};
pub use retention::{TsRetentionPolicy, BYTES_PER_POINT};
pub use wal::{
    decode_record_bits, encode_record_bits, scan_segment, TsFsyncPolicy, TsWalError, RECORD_LEN,
    SEGMENT_MAX_RECORDS,
};
pub use series::{TsRange, TsSeries};

use crate::text::{dec_int, push_i64_dec, push_text};

verus! {

/// Errors returned by the ingest + range surface. Time-query + aggregate
/// reads never error - they return `Option` for the empty case.
#[derive(Clone, Debug, PartialEq, Eq)]
pub enum TsError {
    /// `push` received a timestamp earlier than the series tail. Series are
    /// non-decreasing in `ts`; out-of-order inserts are rejected.
    NotMonotonic { last: i64, got: i64 },
    /// `push` received a null / non-finite observation.
    NullValue { hint: &'static str },
    /// A frame push received a column name already present.
    DuplicateColumn { name: String },
}

/// The text shown for an ingest error.
pub open spec fn ts_error_text(e: TsError) -> Seq<char> {
    match e {
        TsError::NotMonotonic { last, got } => "non-monotonic ts: tail="@ + dec_int(last as int)
            + ", got="@ + dec_int(got as int),
        TsError::NullValue { hint } => "null value rejected: "@ + hint@,
        TsError::DuplicateColumn { name } => "duplicate frame column: "@ + name@,
    }
}

impl TsError {
    /// The error's text: the failed check, with the offending values.
    pub fn message(&self) -> (m: String)
        ensures
            m@ == ts_error_text(*self),
    {
        match self {
            TsError::NotMonotonic { last, got } => {
                let mut m = "non-monotonic ts: tail=".to_owned();
                push_i64_dec(&mut m, *last);
                push_text(&mut m, ", got=");
                push_i64_dec(&mut m, *got);
                m
            },
            TsError::NullValue { hint } => {
                let mut m = "null value rejected: ".to_owned();
                push_text(&mut m, hint);
                m
            },
            TsError::DuplicateColumn { name } => {
                let mut m = "duplicate frame column: ".to_owned();
                push_text(&mut m, name.as_str());
                m
            },
        }
    }
}

/// Gate for "is this a present (non-null) observation". A value type
/// implements it once; `push` rejects values that report `false`.
pub trait TsValueKind {
    /// Whether the value counts as a present observation.
    spec fn spec_is_present(&self) -> bool;

    fn ts_is_present(&self) -> (b: bool)
        ensures
            b == self.spec_is_present(),
    ;
}

impl TsValueKind for i64 {
    open spec fn spec_is_present(&self) -> bool {
        true
    }

    fn ts_is_present(&self) -> (b: bool) {
        true
    }
}

impl TsValueKind for i32 {
    open spec fn spec_is_present(&self) -> bool {
        true
    }

    fn ts_is_present(&self) -> (b: bool) {
        true
    }
}

impl TsValueKind for u64 {
    open spec fn spec_is_present(&self) -> bool {
        true
    }

    fn ts_is_present(&self) -> (b: bool) {
        true
    }
}

impl TsValueKind for u32 {
    open spec fn spec_is_present(&self) -> bool {
        true
    }

    fn ts_is_present(&self) -> (b: bool) {
        true
    }
}

impl TsValueKind for bool {
    open spec fn spec_is_present(&self) -> bool {
        true
    }

    fn ts_is_present(&self) -> (b: bool) {
        true
    }
}

impl TsValueKind for String {
    open spec fn spec_is_present(&self) -> bool {
        true
    }

    fn ts_is_present(&self) -> (b: bool) {
        true
    }
}

/// Numeric surface gate. A `TsSeries<T: TsNumeric>` gets `min` / `max` /
/// `sum` and their ranged variants. The order and the addition are the value
/// type's own; the spec functions name them.
pub trait TsNumeric: Copy {
    spec fn num_zero() -> Self;

    spec fn num_add(self, other: Self) -> Self;

    spec fn num_lt(self, other: Self) -> bool;

    fn ts_zero() -> (z: Self)
        ensures
            z == Self::num_zero(),
    ;

    fn ts_add(self, other: Self) -> (r: Self)
        ensures
            r == self.num_add(other),
    ;

    /// The strict order the aggregates compare by (`self < other`).
    fn ts_lt(self, other: Self) -> (b: bool)
        ensures
            b == self.num_lt(other),
    ;
}

impl TsNumeric for i64 {
    open spec fn num_zero() -> i64 {
        0
    }

    open spec fn num_add(self, other: i64) -> i64 {
        self.wrapping_add(other)
    }

    open spec fn num_lt(self, other: i64) -> bool {
        self < other
    }

    fn ts_zero() -> (z: i64) {
        0
    }

    fn ts_add(self, other: i64) -> (r: i64) {
        self.wrapping_add(other)
    }

    fn ts_lt(self, other: i64) -> (b: bool) {
        self < other
    }
}

/// Marker for value types that get the columnar fast path.
pub trait TsColumnar: Copy {

}

impl TsColumnar for i64 {

}

impl TsColumnar for i32 {

}

impl TsColumnar for u64 {

}

impl TsColumnar for u32 {

}

} // verus!
