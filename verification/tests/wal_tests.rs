use subms_ts::wal::{
    crc32, is_stale_segment, last_record_ts, needs_roll, next_active_seq, parse_segment_seq,
    replay_segments, segment_name, segment_seqs, should_sync,
};
use subms_ts::{
    decode_record_bits, encode_record_bits, scan_segment, TsFsyncPolicy, RECORD_LEN,
    SEGMENT_MAX_RECORDS,
};

// Pins the record layout: series_id=7, ts=100, value=1.5.
const RECORD_FIXTURE: &str = "07000000000000006400000000000000000000000000f83fdf7aaa15";

fn to_hex(b: &[u8]) -> String {
    b.iter().map(|x| format!("{x:02x}")).collect()
}

#[test]
fn record_encoding_matches_fixture() {
    let buf = encode_record_bits(7, 100, 1.5f64.to_bits());
    assert_eq!(buf.len(), RECORD_LEN);
    assert_eq!(to_hex(&buf), RECORD_FIXTURE);
}

#[test]
fn crc32_check_value() {
    // The standard CRC-32 check value.
    assert_eq!(crc32(b"123456789"), 0xCBF4_3926);
    assert_eq!(crc32(b""), 0);
}

#[test]
fn decode_round_trips_bit_exact() {
    let nan = 0x7ff8_0000_0000_0001u64;
    let buf = encode_record_bits(u64::MAX, i64::MIN, nan);
    assert_eq!(decode_record_bits(&buf), Some((u64::MAX, i64::MIN, nan)));
}

#[test]
fn decode_rejects_short_and_corrupt() {
    let mut buf = encode_record_bits(1, 2, 3);
    assert_eq!(decode_record_bits(&buf[..RECORD_LEN - 1]), None);
    buf[16] ^= 0xFF;
    assert_eq!(decode_record_bits(&buf), None);
}

#[test]
fn scan_stops_at_torn_tail() {
    let mut bytes = Vec::new();
    for i in 0..3u64 {
        bytes.extend(encode_record_bits(i, i as i64 * 10, i));
    }
    let (recs, clean) = scan_segment(&bytes);
    assert_eq!(recs.len(), 3);
    assert!(clean);
    bytes.extend(&encode_record_bits(9, 90, 9)[..RECORD_LEN - 4]);
    let (recs, clean) = scan_segment(&bytes);
    assert_eq!(recs, vec![(0, 0, 0), (1, 10, 1), (2, 20, 2)]);
    assert!(!clean);
    assert_eq!(last_record_ts(&bytes), Some(20));
}

#[test]
fn scan_stops_at_checksum_failure() {
    let mut bytes = Vec::new();
    for i in 0..4u64 {
        bytes.extend(encode_record_bits(i, i as i64, i));
    }
    bytes[2 * RECORD_LEN + 16] ^= 0xFF;
    let (recs, clean) = scan_segment(&bytes);
    assert_eq!(recs.len(), 2);
    assert!(!clean);
    assert_eq!(last_record_ts(&[0xAB; 10]), None);
}

#[test]
fn segment_names_round_trip() {
    assert_eq!(segment_name(42), "wal-0000000042.log");
    assert_eq!(parse_segment_seq("wal-0000000042.log"), Some(42));
    assert_eq!(parse_segment_seq(&segment_name(9_999_999_999)), Some(9_999_999_999));
    assert_eq!(parse_segment_seq("wal-42.log"), None);
    assert_eq!(parse_segment_seq("wal-00000000x2.log"), None);
    assert_eq!(parse_segment_seq("log-0000000042.wal"), None);
}

#[test]
fn sync_and_roll_decisions() {
    assert!(should_sync(TsFsyncPolicy::Always, 0, 0));
    assert!(!should_sync(TsFsyncPolicy::Never, 1_000, 1_000));
    assert!(!should_sync(TsFsyncPolicy::EveryNAppends(0), 5, 0));
    assert!(!should_sync(TsFsyncPolicy::EveryNAppends(4), 3, 0));
    assert!(should_sync(TsFsyncPolicy::EveryNAppends(4), 4, 0));
    assert!(should_sync(TsFsyncPolicy::EveryNMillis(5), 0, 5));
    assert!(!should_sync(TsFsyncPolicy::EveryNMillis(5), 0, 4));
    assert!(!needs_roll(SEGMENT_MAX_RECORDS - 1));
    assert!(needs_roll(SEGMENT_MAX_RECORDS));
    assert_eq!(next_active_seq(&[]), Some(0));
    assert_eq!(next_active_seq(&[3, 7, 5]), Some(8));
    assert_eq!(next_active_seq(&[u64::MAX]), None);
}

#[test]
fn replay_stops_after_first_unclean_segment() {
    let r1 = encode_record_bits(1, 10, 100);
    let r2 = encode_record_bits(2, 20, 200);
    let r3 = encode_record_bits(3, 30, 300);
    let mut torn = r2.clone();
    torn.extend_from_slice(&r3[..5]);
    let clean_first = r1.clone();
    let segs = vec![clean_first, torn, r3.clone()];
    // the torn second segment keeps its valid prefix and ends the replay
    assert_eq!(replay_segments(&segs), vec![(1, 10, 100), (2, 20, 200)]);
    let all_clean = vec![r1.clone(), r2.clone(), r3.clone()];
    assert_eq!(
        replay_segments(&all_clean),
        vec![(1, 10, 100), (2, 20, 200), (3, 30, 300)]
    );
    assert!(replay_segments(&vec![]).is_empty());
}

#[test]
fn segment_listing_sorts_and_ignores_other_files() {
    let names: Vec<String> = vec![
        "wal-0000000010.log".to_string(),
        "notes.txt".to_string(),
        "wal-0000000002.log".to_string(),
        "wal-2.log".to_string(),
        "wal-0000000007.log".to_string(),
    ];
    assert_eq!(segment_seqs(&names), vec![2, 7, 10]);
}

#[test]
fn stale_segment_rule() {
    assert!(is_stale_segment(1, 3, Some(5), 10));
    assert!(!is_stale_segment(3, 3, Some(5), 10)); // active segment never goes
    assert!(!is_stale_segment(1, 3, Some(10), 10)); // not older than the cutoff
    assert!(!is_stale_segment(1, 3, None, 10)); // no valid record
}
