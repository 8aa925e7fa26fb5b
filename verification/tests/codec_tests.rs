use subms_ts::codec::{check_column_lengths, iso8601_from_nanos};
use subms_ts::{TsCodecError, TsJsonCodec, TsTimestampStyle};

#[test]
fn document_layout_compact_and_pretty() {
    let c = TsJsonCodec::new();
    let doc = c.encode_document(
        Some("trades.aapl"),
        &[1_000, 2_000],
        &["1.5".to_string(), "2.0".to_string()],
    );
    assert_eq!(
        doc,
        "{\"name\":\"trades.aapl\",\"timestamps\":[1000,2000],\"values\":[1.5,2.0]}"
    );
    let p = TsJsonCodec::new().pretty(true);
    let doc = p.encode_document(None, &[7], &["0.5".to_string()]);
    assert_eq!(doc, "{\n  \"timestamps\":[7],\n  \"values\":[0.5]\n}");
    assert_eq!(c.format(), "json");
}

#[test]
fn name_is_json_escaped() {
    let doc = TsJsonCodec::new().encode_document(Some("a\"b\\c\n"), &[], &[]);
    assert_eq!(doc, "{\"name\":\"a\\\"b\\\\c\\n\",\"timestamps\":[],\"values\":[]}");
}

#[test]
fn timestamp_styles_render() {
    let nanos = TsJsonCodec::new();
    assert_eq!(nanos.ts_token(-42), "-42");
    let millis = TsJsonCodec::new().with_style(TsTimestampStyle::EpochMillis);
    assert_eq!(millis.ts_token(1_999_999), "1");
    assert_eq!(millis.ts_token(-1_999_999), "-1"); // rounds toward zero
    let iso = TsJsonCodec::new().with_style(TsTimestampStyle::Iso8601);
    assert_eq!(iso.ts_token(1_000_000_000), "\"1970-01-01T00:00:01.000000000Z\"");
}

#[test]
fn iso8601_calendar_edges() {
    assert_eq!(iso8601_from_nanos(0), "1970-01-01T00:00:00.000000000Z");
    assert_eq!(iso8601_from_nanos(-1), "1969-12-31T23:59:59.999999999Z");
    // 2000-02-29 (leap day) 12:34:56.789
    assert_eq!(
        iso8601_from_nanos(951_827_696_789_000_000),
        "2000-02-29T12:34:56.789000000Z"
    );
    assert_eq!(iso8601_from_nanos(i64::MAX), "2262-04-11T23:47:16.854775807Z");
    assert_eq!(iso8601_from_nanos(i64::MIN), "1677-09-21T00:12:43.145224192Z");
}

#[test]
fn extract_arrays_back_out() {
    let text = "{\"name\":\"x\",\"timestamps\":[ 1000, -2000 ,3000],\"values\":[1.5,2.0, 2.5]}";
    assert_eq!(
        TsJsonCodec::extract_number_array(text, "timestamps"),
        Ok(vec![1000, -2000, 3000])
    );
    assert_eq!(
        TsJsonCodec::array_tokens(text, "values"),
        Ok(vec!["1.5".to_string(), "2.0".to_string(), "2.5".to_string()])
    );
    assert_eq!(TsJsonCodec::extract_number_array("{\"timestamps\":[]}", "timestamps"), Ok(vec![]));
}

#[test]
fn extract_errors() {
    assert!(matches!(
        TsJsonCodec::extract_number_array("{}", "timestamps"),
        Err(TsCodecError::Parse(_))
    ));
    assert!(matches!(
        TsJsonCodec::extract_number_array("{\"timestamps\": 1}", "timestamps"),
        Err(TsCodecError::Parse(_))
    ));
    assert!(matches!(
        TsJsonCodec::extract_number_array("{\"timestamps\":[1,2", "timestamps"),
        Err(TsCodecError::Parse(_))
    ));
    assert!(matches!(
        TsJsonCodec::extract_number_array("{\"timestamps\":[1.5]}", "timestamps"),
        Err(TsCodecError::Parse(_))
    ));
    assert!(matches!(
        TsJsonCodec::extract_number_array("{\"timestamps\":[99999999999999999999]}", "timestamps"),
        Err(TsCodecError::Parse(_))
    ));
    assert_eq!(
        TsJsonCodec::extract_number_array("{\"timestamps\":[-9223372036854775808,+7]}", "timestamps"),
        Ok(vec![i64::MIN, 7])
    );
}

#[test]
fn timestamp_scales() {
    assert_eq!(TsJsonCodec::new().timestamp_scale(), Ok(1));
    assert_eq!(
        TsJsonCodec::new().with_style(TsTimestampStyle::EpochMillis).timestamp_scale(),
        Ok(1_000_000)
    );
    assert_eq!(
        TsJsonCodec::new().with_style(TsTimestampStyle::Iso8601).timestamp_scale(),
        Err(TsCodecError::UnsupportedTimestampDecode)
    );
}

#[test]
fn encoded_documents_read_back() {
    let ts = [0i64, -1_500_000, 9_000_000, i64::MIN, i64::MAX];
    let vals: Vec<String> = ["1.5", "-2.0", "3e8", "inf", "0.0"].iter().map(|s| s.to_string()).collect();
    for pretty in [false, true] {
        for name in [None, Some("cpu.load"), Some("timestampsx"), Some("va\\lues")] {
            let c = TsJsonCodec::new().pretty(pretty);
            let doc = c.encode_document(name, &ts, &vals);
            assert_eq!(TsJsonCodec::extract_number_array(&doc, "timestamps").unwrap(), ts.to_vec());
            assert_eq!(TsJsonCodec::array_tokens(&doc, "values").unwrap(), vals);
        }
    }
    // millisecond style reads back the truncated milliseconds
    let c = TsJsonCodec::new().with_style(TsTimestampStyle::EpochMillis);
    let doc = c.encode_document(None, &[1_999_999, -1_999_999], &["1.0".to_string(), "2.0".to_string()]);
    assert_eq!(TsJsonCodec::extract_number_array(&doc, "timestamps").unwrap(), vec![1, -1]);
    // a series named "values" is where reading back goes wrong
    let doc = TsJsonCodec::new().encode_document(Some("values"), &[5], &["1.0".to_string()]);
    assert_eq!(TsJsonCodec::array_tokens(&doc, "values").unwrap(), vec!["5".to_string()]);
}

#[test]
fn column_length_check_names_both_lengths() {
    assert_eq!(check_column_lengths(3, 3), Ok(()));
    assert_eq!(
        check_column_lengths(3, 2),
        Err(TsCodecError::Parse("timestamps (3) and values (2) length mismatch".to_string()))
    );
}
