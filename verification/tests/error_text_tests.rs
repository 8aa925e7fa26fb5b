use subms_ts::sql::TsSqlError;
use subms_ts::{TsCodecError, TsCollectionError, TsError, TsPromQlError, TsWalError};

#[test]
fn ingest_error_texts() {
    let e = TsError::NotMonotonic { last: 5, got: -3 };
    assert_eq!(e.message(), "non-monotonic ts: tail=5, got=-3");
    let e = TsError::NullValue { hint: "non-finite f64" };
    assert_eq!(e.message(), "null value rejected: non-finite f64");
    let e = TsError::DuplicateColumn { name: "px".to_string() };
    assert_eq!(e.message(), "duplicate frame column: px");
}

#[test]
fn collection_error_texts() {
    assert_eq!(TsCollectionError::DuplicateId(42).message(), "duplicate series id 42");
    assert_eq!(
        TsCollectionError::DuplicateName("cpu".to_string()).message(),
        "duplicate series name cpu"
    );
    assert_eq!(TsCollectionError::UnknownId(0).message(), "unknown series id 0");
    let inner = TsError::NotMonotonic { last: 10, got: 9 };
    assert_eq!(
        TsCollectionError::Ingest(inner).message(),
        "non-monotonic ts: tail=10, got=9"
    );
}

#[test]
fn codec_error_texts() {
    assert_eq!(
        TsCodecError::Parse("missing key".to_string()).message(),
        "parse error: missing key"
    );
    assert_eq!(
        TsCodecError::UnsupportedTimestampDecode.message(),
        "decoding ISO-8601 timestamps requires the `datetime` feature"
    );
}

#[test]
fn query_error_texts() {
    assert_eq!(
        TsPromQlError::Parse("unexpected token".to_string()).message(),
        "promql parse error: unexpected token"
    );
    assert_eq!(
        TsPromQlError::Eval("empty range".to_string()).message(),
        "promql eval error: empty range"
    );
    assert_eq!(TsSqlError::Parse("eof".to_string()).message(), "sql parse error: eof");
    assert_eq!(TsSqlError::UnknownTable("t".to_string()).message(), "unknown table: t");
    assert_eq!(TsSqlError::UnknownColumn("c".to_string()).message(), "unknown column: c");
    assert_eq!(
        TsSqlError::Unsupported("JOIN".to_string()).message(),
        "unsupported clause: JOIN"
    );
    assert_eq!(TsSqlError::Type("not numeric".to_string()).message(), "type error: not numeric");
}

#[test]
fn wal_error_texts() {
    assert_eq!(
        TsWalError::Corrupt("bad name".to_string()).message(),
        "wal corrupt: bad name"
    );
    let io = std::io::Error::new(std::io::ErrorKind::Other, "disk gone");
    let text = TsWalError::Io(io).message();
    assert_eq!(text, "wal io error: disk gone");
}
