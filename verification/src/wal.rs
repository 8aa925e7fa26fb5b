//! The write-ahead log's record format and recovery rules. Each record is 28
//! bytes, little-endian, with a trailing CRC-32 over its 24-byte payload:
//!
//! ```text
//! [series_id u64 LE][ts i64 LE][value_bits u64 LE][crc32 u32 LE]
//! ```
//!
//! Recovery walks a segment's records in order and stops at the first short,
//! garbage or checksum-failing record, keeping the valid prefix: a torn tail
//! costs only the records that were never durably written. The fsync policy
//! and segment roll-over decisions live here too; the file handling that
//! acts on them stays with the caller.

use vstd::prelude::*;

use crate::text::{push_text, push_u64_dec, string_push};

verus! {

/// Records per segment before the log rolls to a fresh file.
pub const SEGMENT_MAX_RECORDS: u64 = 4096;

/// Wire size of one record: 8 + 8 + 8 + 4.
pub const RECORD_LEN: usize = 28;

/// Payload bytes the CRC is taken over (everything but the trailing checksum).
pub const PAYLOAD_LEN: usize = 24;

/// When to fsync the active segment.
///
/// `Always` syncs on every append. The batched policies amortise the fsync
/// across many appends.
#[derive(Clone, Copy, Debug, PartialEq, Eq)]
pub enum TsFsyncPolicy {
    Always,
    EveryNAppends(u32),
    EveryNMillis(u32),
    Never,
}

/// std's `io::Error`, declared so that an error can carry it; nothing is
/// known of its contents.
#[verifier::external_type_specification]
#[verifier::external_body]
pub struct ExIoError(std::io::Error);

/// Errors from log operations. `Corrupt` is reserved for malformed segment
/// directory state; a torn tail is a clean stop, not an error.
#[derive(Debug)]
pub enum TsWalError {
    Io(std::io::Error),
    Corrupt(String),
}

impl TsWalError {
    /// The error's text. A corrupt-directory error reads `wal corrupt: `
    /// and its detail; an I/O error reads `wal io error: ` followed by the
    /// platform's own description of the I/O failure, which is not stated
    /// here.
    pub fn message(&self) -> (m: String)
        ensures
            match *self {
                TsWalError::Io(_) => "wal io error: "@.is_prefix_of(m@),
                TsWalError::Corrupt(d) => m@ == "wal corrupt: "@ + d@,
            },
    {
        match self {
            TsWalError::Io(e) => {
                let mut m = "wal io error: ".to_owned();
                let ghost head = m@;
                let detail = e.to_string();
                push_text(&mut m, detail.as_str());
                assert(head =~= m@.subrange(0, head.len() as int));
                m
            },
            TsWalError::Corrupt(d) => {
                let mut m = "wal corrupt: ".to_owned();
                push_text(&mut m, d.as_str());
                m
            },
        }
    }
}

// ---------- CRC-32 (IEEE 802.3, reflected) ----------

/// One shift of the reflected CRC-32 register (polynomial 0xEDB88320).
pub open spec fn crc_shift(c: u32) -> u32 {
    if c & 1 == 1 {
        (c >> 1u32) ^ 0xEDB8_8320u32
    } else {
        c >> 1u32
    }
}

/// The register after feeding one byte.
pub open spec fn crc_byte(c: u32, b: u8) -> u32 {
    let x = c ^ (b as u32);
    crc_shift(crc_shift(crc_shift(crc_shift(crc_shift(crc_shift(crc_shift(crc_shift(x))))))))
}

/// The register after feeding `bytes`, starting from `c`.
pub open spec fn crc_feed(c: u32, bytes: Seq<u8>) -> u32
    decreases bytes.len(),
{
    if bytes.len() == 0 {
        c
    } else {
        crc_byte(crc_feed(c, bytes.drop_last()), bytes.last())
    }
}

/// CRC-32 of `bytes`: register preset to all ones, result complemented.
pub open spec fn crc32_of(bytes: Seq<u8>) -> u32 {
    !crc_feed(0xFFFF_FFFFu32, bytes)
}

fn crc_shift_exec(c: u32) -> (r: u32)
    ensures
        r == crc_shift(c),
{
    if c & 1 == 1 {
        (c >> 1u32) ^ 0xEDB8_8320u32
    } else {
        c >> 1u32
    }
}

/// CRC-32 (IEEE) of `bytes`, bit by bit.
pub fn crc32(bytes: &[u8]) -> (c: u32)
    ensures
        c == crc32_of(bytes@),
{
    let mut c: u32 = 0xFFFF_FFFFu32;
    for i in 0..bytes.len()
        invariant
            c == crc_feed(0xFFFF_FFFFu32, bytes@.take(i as int)),
    {
        assert(bytes@.take(i + 1).drop_last() =~= bytes@.take(i as int));
        let mut x = c ^ (bytes[i] as u32);
        x = crc_shift_exec(x);
        x = crc_shift_exec(x);
        x = crc_shift_exec(x);
        x = crc_shift_exec(x);
        x = crc_shift_exec(x);
        x = crc_shift_exec(x);
        x = crc_shift_exec(x);
        x = crc_shift_exec(x);
        c = x;
    }
    assert(bytes@.take(bytes@.len() as int) =~= bytes@);
    !c
}

// ---------- little-endian fields ----------

/// Byte `i` (0 = least significant) of `x`.
pub open spec fn byte_of(x: u64, i: u64) -> u8 {
    ((x >> (8 * i)) & 0xffu64) as u8
}

/// `x` as 8 little-endian bytes.
pub open spec fn le_u64(x: u64) -> Seq<u8> {
    seq![
        byte_of(x, 0),
        byte_of(x, 1),
        byte_of(x, 2),
        byte_of(x, 3),
        byte_of(x, 4),
        byte_of(x, 5),
        byte_of(x, 6),
        byte_of(x, 7),
    ]
}

/// `x` as 4 little-endian bytes.
pub open spec fn le_u32(x: u32) -> Seq<u8> {
    seq![
        (x & 0xffu32) as u8,
        ((x >> 8u32) & 0xffu32) as u8,
        ((x >> 16u32) & 0xffu32) as u8,
        ((x >> 24u32) & 0xffu32) as u8,
    ]
}

/// The `u64` whose little-endian bytes start `b`.
pub open spec fn u64_from_le(b: Seq<u8>) -> u64 {
    (b[0] as u64) | ((b[1] as u64) << 8u64) | ((b[2] as u64) << 16u64) | ((b[3] as u64) << 24u64)
        | ((b[4] as u64) << 32u64) | ((b[5] as u64) << 40u64) | ((b[6] as u64) << 48u64) | ((
    b[7] as u64) << 56u64)
}

/// The `u32` whose little-endian bytes start `b`.
pub open spec fn u32_from_le(b: Seq<u8>) -> u32 {
    (b[0] as u32) | ((b[1] as u32) << 8u32) | ((b[2] as u32) << 16u32) | ((b[3] as u32) << 24u32)
}

proof fn lemma_le_u64_roundtrip(x: u64)
    ensures
        u64_from_le(le_u64(x)) == x,
{
    let b = le_u64(x);
    let b0 = byte_of(x, 0);
    let b1 = byte_of(x, 1);
    let b2 = byte_of(x, 2);
    let b3 = byte_of(x, 3);
    let b4 = byte_of(x, 4);
    let b5 = byte_of(x, 5);
    let b6 = byte_of(x, 6);
    let b7 = byte_of(x, 7);
    assert(b[0] == b0 && b[1] == b1 && b[2] == b2 && b[3] == b3);
    assert(b[4] == b4 && b[5] == b5 && b[6] == b6 && b[7] == b7);
    assert((b0 as u64) | ((b1 as u64) << 8u64) | ((b2 as u64) << 16u64) | ((b3 as u64) << 24u64)
        | ((b4 as u64) << 32u64) | ((b5 as u64) << 40u64) | ((b6 as u64) << 48u64) | ((
    b7 as u64) << 56u64) == x) by (bit_vector)
        requires
            b0 == ((x >> 0u64) & 0xffu64) as u8,
            b1 == ((x >> 8u64) & 0xffu64) as u8,
            b2 == ((x >> 16u64) & 0xffu64) as u8,
            b3 == ((x >> 24u64) & 0xffu64) as u8,
            b4 == ((x >> 32u64) & 0xffu64) as u8,
            b5 == ((x >> 40u64) & 0xffu64) as u8,
            b6 == ((x >> 48u64) & 0xffu64) as u8,
            b7 == ((x >> 56u64) & 0xffu64) as u8,
    ;
}

proof fn lemma_le_u32_roundtrip(x: u32)
    ensures
        u32_from_le(le_u32(x)) == x,
{
    let b = le_u32(x);
    let b0 = (x & 0xffu32) as u8;
    let b1 = ((x >> 8u32) & 0xffu32) as u8;
    let b2 = ((x >> 16u32) & 0xffu32) as u8;
    let b3 = ((x >> 24u32) & 0xffu32) as u8;
    assert(b[0] == b0 && b[1] == b1 && b[2] == b2 && b[3] == b3);
    assert((b0 as u32) | ((b1 as u32) << 8u32) | ((b2 as u32) << 16u32) | ((b3 as u32) << 24u32)
        == x) by (bit_vector)
        requires
            b0 == (x & 0xffu32) as u8,
            b1 == ((x >> 8u32) & 0xffu32) as u8,
            b2 == ((x >> 16u32) & 0xffu32) as u8,
            b3 == ((x >> 24u32) & 0xffu32) as u8,
    ;
}

proof fn lemma_i64_bits_roundtrip(t: i64)
    ensures
        ((t as u64) as i64) == t,
{
    assert(((t as u64) as i64) == t) by (bit_vector);
}

// ---------- records ----------

/// The 24 payload bytes of a record.
pub open spec fn record_payload(series_id: u64, ts: i64, value_bits: u64) -> Seq<u8> {
    le_u64(series_id) + le_u64(ts as u64) + le_u64(value_bits)
}

/// The 28 bytes of a record: payload, then the payload's CRC-32.
pub open spec fn record_bytes(series_id: u64, ts: i64, value_bits: u64) -> Seq<u8> {
    record_payload(series_id, ts, value_bits) + le_u32(
        crc32_of(record_payload(series_id, ts, value_bits)),
    )
}

/// `b` starts with a whole record whose checksum matches its payload.
pub open spec fn record_ok(b: Seq<u8>) -> bool {
    b.len() >= RECORD_LEN && crc32_of(b.take(PAYLOAD_LEN as int)) == u32_from_le(
        b.subrange(24, 28),
    )
}

/// The fields of the record at the start of `b`: series id, timestamp and
/// the value's bits.
pub open spec fn record_fields(b: Seq<u8>) -> (u64, i64, u64) {
    (u64_from_le(b), u64_from_le(b.subrange(8, 16)) as i64, u64_from_le(b.subrange(16, 24)))
}

/// The records a segment holds before its first short or corrupt one.
pub open spec fn valid_records(b: Seq<u8>) -> Seq<(u64, i64, u64)>
    decreases b.len(),
{
    if record_ok(b) {
        seq![record_fields(b)] + valid_records(b.skip(RECORD_LEN as int))
    } else {
        Seq::empty()
    }
}

/// Every byte of the segment belongs to a valid record (nothing torn).
pub open spec fn clean_segment(b: Seq<u8>) -> bool
    decreases b.len(),
{
    if b.len() == 0 {
        true
    } else if record_ok(b) {
        clean_segment(b.skip(RECORD_LEN as int))
    } else {
        false
    }
}

/// The bytes a sequence of records is written as, in order.
pub open spec fn log_bytes(rs: Seq<(u64, i64, u64)>) -> Seq<u8>
    decreases rs.len(),
{
    if rs.len() == 0 {
        Seq::empty()
    } else {
        record_bytes(rs[0].0, rs[0].1, rs[0].2) + log_bytes(rs.drop_first())
    }
}

fn push_le_u64(out: &mut Vec<u8>, x: u64)
    ensures
        final(out)@ == old(out)@ + le_u64(x),
{
    let mut i: u64 = 0;
    let ghost start = out@;
    while i < 8
        invariant
            i <= 8,
            out@ == start + le_u64(x).take(i as int),
        decreases 8 - i,
    {
        let b = ((x >> (8 * i)) & 0xffu64) as u8;
        out.push(b);
        assert(le_u64(x)[i as int] == byte_of(x, i));
        assert(le_u64(x).take(i + 1) =~= le_u64(x).take(i as int).push(b));
        i = i + 1;
    }
    assert(le_u64(x).take(8) =~= le_u64(x));
}

fn read_le_u64(b: &[u8], at: usize) -> (x: u64)
    requires
        at + 8 <= b@.len(),
    ensures
        x == u64_from_le(b@.subrange(at as int, at + 8)),
{
    let ghost s = b@.subrange(at as int, at + 8);
    assert(s[0] == b@[at as int] && s[1] == b@[at + 1] && s[2] == b@[at + 2] && s[3] == b@[at + 3]);
    assert(s[4] == b@[at + 4] && s[5] == b@[at + 5] && s[6] == b@[at + 6] && s[7] == b@[at + 7]);
    (b[at] as u64) | ((b[at + 1] as u64) << 8u64) | ((b[at + 2] as u64) << 16u64) | ((b[at
        + 3] as u64) << 24u64) | ((b[at + 4] as u64) << 32u64) | ((b[at + 5] as u64) << 40u64)
        | ((b[at + 6] as u64) << 48u64) | ((b[at + 7] as u64) << 56u64)
}

fn read_le_u32(b: &[u8], at: usize) -> (x: u32)
    requires
        at + 4 <= b@.len(),
    ensures
        x == u32_from_le(b@.subrange(at as int, at + 4)),
{
    let ghost s = b@.subrange(at as int, at + 4);
    assert(s[0] == b@[at as int] && s[1] == b@[at + 1] && s[2] == b@[at + 2] && s[3] == b@[at + 3]);
    (b[at] as u32) | ((b[at + 1] as u32) << 8u32) | ((b[at + 2] as u32) << 16u32) | ((b[at
        + 3] as u32) << 24u32)
}

/// Encode a record (its value given as the `f64`'s bits) into its 28-byte
/// on-disk form.
pub fn encode_record_bits(series_id: u64, ts: i64, value_bits: u64) -> (buf: Vec<u8>)
    ensures
        buf@ == record_bytes(series_id, ts, value_bits),
{
    let mut buf: Vec<u8> = Vec::with_capacity(RECORD_LEN);
    push_le_u64(&mut buf, series_id);
    push_le_u64(&mut buf, ts as u64);
    push_le_u64(&mut buf, value_bits);
    let crc = crc32(buf.as_slice());
    let ghost payload = buf@;
    buf.push((crc & 0xffu32) as u8);
    buf.push(((crc >> 8u32) & 0xffu32) as u8);
    buf.push(((crc >> 16u32) & 0xffu32) as u8);
    buf.push(((crc >> 24u32) & 0xffu32) as u8);
    assert(buf@ =~= payload + le_u32(crc));
    buf
}

/// Decode and CRC-validate the record at the start of `buf`. `None` when the
/// slice is short or the checksum does not match the payload: both signal a
/// torn or corrupt tail.
pub fn decode_record_bits(buf: &[u8]) -> (r: Option<(u64, i64, u64)>)
    ensures
        r == if record_ok(buf@) {
            Some(record_fields(buf@))
        } else {
            None::<(u64, i64, u64)>
        },
{
    if buf.len() < RECORD_LEN {
        return None;
    }
    let stored = read_le_u32(buf, 24);
    let mut payload: Vec<u8> = Vec::with_capacity(PAYLOAD_LEN);
    for i in 0..PAYLOAD_LEN
        invariant
            buf@.len() >= RECORD_LEN,
            payload@ == buf@.take(i as int),
    {
        payload.push(buf[i]);
        assert(payload@ =~= buf@.take(i + 1));
    }
    if crc32(payload.as_slice()) != stored {
        return None;
    }
    let series_id = read_le_u64(buf, 0);
    let ts = read_le_u64(buf, 8) as i64;
    let value_bits = read_le_u64(buf, 16);
    assert(buf@.subrange(0, 8) =~= buf@.take(8));
    proof {
        let s = buf@.subrange(0, 8);
        assert(s[0] == buf@[0] && s[1] == buf@[1] && s[2] == buf@[2] && s[3] == buf@[3]);
        assert(s[4] == buf@[4] && s[5] == buf@[5] && s[6] == buf@[6] && s[7] == buf@[7]);
    }
    Some((series_id, ts, value_bits))
}

/// Walk a segment's records from the start: the valid prefix, and whether
/// the whole segment was valid records (so replay may go on to the next).
pub fn scan_segment(bytes: &[u8]) -> (r: (Vec<(u64, i64, u64)>, bool))
    ensures
        r.0@ == valid_records(bytes@),
        r.1 == clean_segment(bytes@),
{
    let n = bytes.len();
    let mut out: Vec<(u64, i64, u64)> = Vec::new();
    let mut offset: usize = 0;
    assert(bytes@.skip(0) =~= bytes@);
    while RECORD_LEN <= n - offset
        invariant
            offset <= n,
            n == bytes@.len(),
            valid_records(bytes@) == out@ + valid_records(bytes@.skip(offset as int)),
            clean_segment(bytes@) == clean_segment(bytes@.skip(offset as int)),
        decreases n - offset,
    {
        let ghost rest = bytes@.skip(offset as int);
        let mut chunk: Vec<u8> = Vec::with_capacity(RECORD_LEN);
        for i in 0..RECORD_LEN
            invariant
                offset + RECORD_LEN <= n,
                n == bytes@.len(),
                chunk@ == bytes@.subrange(offset as int, offset + i),
        {
            chunk.push(bytes[offset + i]);
            assert(chunk@ =~= bytes@.subrange(offset as int, offset + i + 1));
        }
        let rec = decode_record_bits(chunk.as_slice());
        proof {
            assert(chunk@ =~= rest.take(RECORD_LEN as int));
            assert(chunk@.take(PAYLOAD_LEN as int) =~= rest.take(PAYLOAD_LEN as int));
            assert(chunk@.subrange(24, 28) =~= rest.subrange(24, 28));
            assert(chunk@.subrange(8, 16) =~= rest.subrange(8, 16));
            assert(chunk@.subrange(16, 24) =~= rest.subrange(16, 24));
            assert(record_ok(chunk@) == record_ok(rest));
            assert(u64_from_le(chunk@) == u64_from_le(rest));
        }
        match rec {
            Some(x) => {
                let ghost prev = out@;
                out.push(x);
                proof {
                    assert(rest.skip(RECORD_LEN as int) =~= bytes@.skip(offset + RECORD_LEN));
                    assert(out@ == prev.push(x));
                    assert(prev + valid_records(rest) =~= out@ + valid_records(
                        bytes@.skip(offset + RECORD_LEN),
                    ));
                }
                offset = offset + RECORD_LEN;
            },
            None => {
                assert(valid_records(rest) == Seq::<(u64, i64, u64)>::empty());
                assert(out@ + valid_records(rest) =~= out@);
                return (out, false);
            },
        }
    }
    let ghost rest = bytes@.skip(offset as int);
    assert(!record_ok(rest));
    assert(out@ + valid_records(rest) =~= out@);
    (out, offset == n)
}

/// The timestamp of the last valid record in a segment, if it holds any.
pub fn last_record_ts(bytes: &[u8]) -> (r: Option<i64>)
    ensures
        r == if valid_records(bytes@).len() == 0 {
            None::<i64>
        } else {
            Some(valid_records(bytes@).last().1)
        },
{
    let (recs, _) = scan_segment(bytes);
    let n = recs.len();
    if n == 0 {
        None
    } else {
        Some(recs[n - 1].1)
    }
}

/// Decoding the bytes of a record gives back its fields.
pub proof fn lemma_record_roundtrip(series_id: u64, ts: i64, value_bits: u64)
    ensures
        record_ok(record_bytes(series_id, ts, value_bits)),
        record_fields(record_bytes(series_id, ts, value_bits)) == (series_id, ts, value_bits),
{
    let b = record_bytes(series_id, ts, value_bits);
    let p = record_payload(series_id, ts, value_bits);
    assert(b.take(PAYLOAD_LEN as int) =~= p);
    assert(b.subrange(24, 28) =~= le_u32(crc32_of(p)));
    lemma_le_u32_roundtrip(crc32_of(p));
    assert(b.subrange(0, 8) =~= le_u64(series_id));
    assert(b.subrange(8, 16) =~= le_u64(ts as u64));
    assert(b.subrange(16, 24) =~= le_u64(value_bits));
    lemma_le_u64_roundtrip(series_id);
    lemma_le_u64_roundtrip(ts as u64);
    lemma_le_u64_roundtrip(value_bits);
    lemma_i64_bits_roundtrip(ts);
    let s = b.subrange(0, 8);
    assert(s[0] == b[0] && s[1] == b[1] && s[2] == b[2] && s[3] == b[3]);
    assert(s[4] == b[4] && s[5] == b[5] && s[6] == b[6] && s[7] == b[7]);
}

/// A record's bytes followed by anything decode to that record, with the
/// rest left after it.
proof fn lemma_record_prefix(series_id: u64, ts: i64, value_bits: u64, rest: Seq<u8>)
    ensures
        record_ok(record_bytes(series_id, ts, value_bits) + rest),
        record_fields(record_bytes(series_id, ts, value_bits) + rest) == (series_id, ts, value_bits),
        (record_bytes(series_id, ts, value_bits) + rest).skip(RECORD_LEN as int) == rest,
{
    let head = record_bytes(series_id, ts, value_bits);
    let b = head + rest;
    lemma_record_roundtrip(series_id, ts, value_bits);
    assert(b.take(PAYLOAD_LEN as int) =~= head.take(PAYLOAD_LEN as int));
    assert(b.subrange(24, 28) =~= head.subrange(24, 28));
    assert(b.subrange(8, 16) =~= head.subrange(8, 16));
    assert(b.subrange(16, 24) =~= head.subrange(16, 24));
    assert(b.skip(RECORD_LEN as int) =~= rest);
    assert(u64_from_le(b) == u64_from_le(head)) by {
        assert(b[0] == head[0] && b[1] == head[1] && b[2] == head[2] && b[3] == head[3]);
        assert(b[4] == head[4] && b[5] == head[5] && b[6] == head[6] && b[7] == head[7]);
    }
}

/// Replaying what was appended gives back exactly the appended records, and
/// whatever follows them (a torn or garbage tail) never costs any of them:
/// replay yields the appended records, then whatever the tail itself holds.
#[verifier::rlimit(40)]
#[verifier::spinoff_prover]
pub proof fn lemma_replay_after_append(rs: Seq<(u64, i64, u64)>, tail: Seq<u8>)
    ensures
        valid_records(log_bytes(rs)) == rs,
        clean_segment(log_bytes(rs)),
        valid_records(log_bytes(rs) + tail) == rs + valid_records(tail),
    decreases rs.len(),
{
    if rs.len() == 0 {
        assert(Seq::<u8>::empty() + tail =~= tail);
        assert(rs + valid_records(tail) =~= valid_records(tail));
    } else {
        let r = rs[0];
        let rest = log_bytes(rs.drop_first());
        lemma_replay_after_append(rs.drop_first(), tail);
        lemma_record_prefix(r.0, r.1, r.2, rest);
        let head = record_bytes(r.0, r.1, r.2);
        assert(log_bytes(rs) == head + rest);
        assert(head + rest + tail =~= head + (rest + tail));
        assert(valid_records(head + rest) == seq![r] + rs.drop_first()) by {
            lemma_record_prefix(r.0, r.1, r.2, rest);
        }
        assert(seq![r] + rs.drop_first() =~= rs);
        let vt = valid_records(head + (rest + tail));
        assert(vt == seq![r] + valid_records(rest + tail)) by {
            lemma_record_prefix(r.0, r.1, r.2, rest + tail);
        }
        assert(vt =~= rs + valid_records(tail));
    }
}

// ---------- segments and sync decisions ----------

/// The file name of segment `seq`: `wal-<seq, 10 digits>.log`.
pub fn segment_name(seq: u64) -> (s: String)
    ensures
        s@ == seq!['w', 'a', 'l', '-'] + crate::text::zero_pad(
            crate::text::dec_nat(seq as nat),
            10,
        ) + seq!['.', 'l', 'o', 'g'],
{
    let mut s = String::new();
    string_push(&mut s, 'w');
    string_push(&mut s, 'a');
    string_push(&mut s, 'l');
    string_push(&mut s, '-');
    crate::text::push_u64_padded(&mut s, seq, 10);
    string_push(&mut s, '.');
    string_push(&mut s, 'l');
    string_push(&mut s, 'o');
    string_push(&mut s, 'g');
    proof {
        let ghost d = crate::text::zero_pad(crate::text::dec_nat(seq as nat), 10);
        assert(s@ =~= seq!['w', 'a', 'l', '-'] + d + seq!['.', 'l', 'o', 'g']);
    }
    s
}

/// The sequence number of a `wal-<10 digits>.log` file name.
pub fn parse_segment_seq(name: &str) -> (r: Option<u64>)
    ensures
        match r {
            Some(q) => name@.len() == 18 && name@.take(4) == seq!['w', 'a', 'l', '-'] && name@.skip(
                14,
            ) == seq!['.', 'l', 'o', 'g'] && crate::text::all_digits(name@.subrange(4, 14))
                && q == crate::text::digits_num(name@.subrange(4, 14)),
            None => !(name@.len() == 18 && name@.take(4) == seq!['w', 'a', 'l', '-'] && name@.skip(
                14,
            ) == seq!['.', 'l', 'o', 'g'] && crate::text::all_digits(name@.subrange(4, 14))),
        },
{
    let cs = crate::text::str_chars(name);
    if cs.len() != 18 {
        return None;
    }
    if !(cs[0] == 'w' && cs[1] == 'a' && cs[2] == 'l' && cs[3] == '-') {
        assert(name@.take(4)[0] == cs@[0]);
        assert(name@.take(4)[1] == cs@[1]);
        assert(name@.take(4)[2] == cs@[2]);
        assert(name@.take(4)[3] == cs@[3]);
        return None;
    }
    if !(cs[14] == '.' && cs[15] == 'l' && cs[16] == 'o' && cs[17] == 'g') {
        assert(name@.skip(14)[0] == cs@[14]);
        assert(name@.skip(14)[1] == cs@[15]);
        assert(name@.skip(14)[2] == cs@[16]);
        assert(name@.skip(14)[3] == cs@[17]);
        return None;
    }
    assert(name@.take(4) =~= seq!['w', 'a', 'l', '-']);
    assert(name@.skip(14) =~= seq!['.', 'l', 'o', 'g']);
    let mut q: u64 = 0;
    let mut i: usize = 4;
    while i < 14
        invariant
            4 <= i <= 14,
            cs@ == name@,
            cs@.len() == 18,
            crate::text::all_digits(name@.subrange(4, i as int)),
            q == crate::text::digits_num(name@.subrange(4, i as int)),
            q < crate::text::pow10((i - 4) as nat),
        decreases 14 - i,
    {
        let c = cs[i];
        proof {
            assert(name@.subrange(4, i + 1).drop_last() =~= name@.subrange(4, i as int));
        }
        if !('0' <= c && c <= '9') {
            proof {
                assert(name@.subrange(4, 14)[i - 4] == c);
            }
            return None;
        }
        proof {
            crate::text::lemma_pow10_step((i - 4) as nat);
            assert(q * 10 + (c as u64 - 48) < crate::text::pow10((i + 1 - 4) as nat)) by (nonlinear_arith)
                requires
                    q < crate::text::pow10((i - 4) as nat),
                    crate::text::pow10((i + 1 - 4) as nat) == crate::text::pow10((i - 4) as nat) * 10,
                    0 <= c as u64 - 48 <= 9,
            ;
            assert(crate::text::pow10(10) == 10_000_000_000) by {
                reveal_with_fuel(crate::text::pow10, 11);
            }
        }
        q = q * 10 + (c as u64 - 48);
        i = i + 1;
    }
    Some(q)
}

/// Should the active segment be synced now? `Always` syncs on every append;
/// `EveryNAppends(n)` once `n` appends have piled up since the last sync
/// (never for `n == 0`); `EveryNMillis(ms)` once `ms` milliseconds have
/// passed since it; `Never` does not.
pub fn should_sync(policy: TsFsyncPolicy, appends_since_sync: u32, millis_since_sync: u64) -> (b: bool)
    ensures
        b == match policy {
            TsFsyncPolicy::Always => true,
            TsFsyncPolicy::EveryNAppends(n) => n != 0 && appends_since_sync >= n,
            TsFsyncPolicy::EveryNMillis(ms) => millis_since_sync >= ms,
            TsFsyncPolicy::Never => false,
        },
{
    match policy {
        TsFsyncPolicy::Always => true,
        TsFsyncPolicy::EveryNAppends(n) => n != 0 && appends_since_sync >= n,
        TsFsyncPolicy::EveryNMillis(ms) => millis_since_sync >= ms as u64,
        TsFsyncPolicy::Never => false,
    }
}

/// Must the log roll to a fresh segment before the next append?
pub fn needs_roll(records_in_segment: u64) -> (b: bool)
    ensures
        b == (records_in_segment >= SEGMENT_MAX_RECORDS),
{
    records_in_segment >= SEGMENT_MAX_RECORDS
}

/// The segment after the highest existing one (`0` on a first open).
pub fn next_active_seq(existing: &[u64]) -> (seq: Option<u64>)
    ensures
        match seq {
            Some(q) => (existing@.len() == 0 && q == 0) || (exists|i: int|
                0 <= i < existing@.len() && q == existing@[i] + 1) && forall|i: int|
                0 <= i < existing@.len() ==> existing@[i] < q,
            None => exists|i: int| 0 <= i < existing@.len() && existing@[i] == u64::MAX,
        },
{
    let mut best: Option<u64> = None;
    for i in 0..existing.len()
        invariant
            match best {
                None => i == 0,
                Some(m) => (exists|j: int| 0 <= j < i && existing@[j] == m) && forall|j: int|
                    0 <= j < i ==> existing@[j] <= m,
            },
    {
        let x = existing[i];
        best = match best {
            None => Some(x),
            Some(m) => Some(
                if x > m {
                    x
                } else {
                    m
                },
            ),
        };
    }
    match best {
        None => Some(0),
        Some(m) => {
            if m == u64::MAX {
                None
            } else {
                Some(m + 1)
            }
        },
    }
}

// ---------- replay and housekeeping decisions ----------

/// What a replay over the segments (oldest first) recovers: each segment's
/// valid records, stopping after the first segment that is not clean; a
/// torn or corrupt record ends the log.
pub open spec fn replay_spec(segs: Seq<Seq<u8>>) -> Seq<(u64, i64, u64)>
    decreases segs.len(),
{
    if segs.len() == 0 {
        Seq::empty()
    } else {
        valid_records(segs[0]) + if clean_segment(segs[0]) {
            replay_spec(segs.drop_first())
        } else {
            Seq::empty()
        }
    }
}

pub open spec fn segs_view(segs: Seq<Vec<u8>>) -> Seq<Seq<u8>> {
    segs.map_values(|s: Vec<u8>| s@)
}

/// The records a replay recovers from the segments' bytes, oldest segment
/// first.
pub fn replay_segments(segs: &Vec<Vec<u8>>) -> (r: Vec<(u64, i64, u64)>)
    ensures
        r@ == replay_spec(segs_view(segs@)),
{
    let ghost all = segs_view(segs@);
    let n = segs.len();
    let mut out: Vec<(u64, i64, u64)> = Vec::new();
    let mut i: usize = 0;
    assert(all.skip(0) =~= all);
    while i < n
        invariant
            i <= n == segs@.len() == all.len(),
            all == segs_view(segs@),
            replay_spec(all) == out@ + replay_spec(all.skip(i as int)),
        decreases n - i,
    {
        let ghost rest = all.skip(i as int);
        assert(rest[0] == segs@[i as int]@);
        assert(rest.drop_first() =~= all.skip(i + 1));
        let (mut recs, clean) = scan_segment(segs[i].as_slice());
        let ghost before = out@;
        let ghost got = recs@;
        out.append(&mut recs);
        if !clean {
            assert(replay_spec(rest) =~= valid_records(rest[0]));
            assert(out@ =~= before + got);
            return out;
        }
        assert(out@ =~= before + got);
        assert(before + replay_spec(rest) =~= out@ + replay_spec(all.skip(i + 1)));
        i = i + 1;
    }
    assert(all.skip(n as int) =~= Seq::<Seq<u8>>::empty());
    assert(out@ + Seq::<(u64, i64, u64)>::empty() =~= out@);
    out
}

/// std's `slice::sort_unstable` on `u64`s, trusted: afterwards the vector
/// holds the same elements (as a multiset), in ascending order.
#[verifier::external_body]
fn sort_u64(v: &mut Vec<u64>)
    ensures
        final(v)@.to_multiset() == old(v)@.to_multiset(),
        forall|i: int, j: int| 0 <= i < j < final(v)@.len() ==> final(v)@[i] <= final(v)@[j],
{
    v.sort_unstable();
}

/// The sequence number a segment file name carries, if it is one.
pub open spec fn segment_seq_of(name: Seq<char>) -> Option<u64> {
    if name.len() == 18 && name.take(4) == seq!['w', 'a', 'l', '-'] && name.skip(14) == seq![
        '.',
        'l',
        'o',
        'g',
    ] && crate::text::all_digits(name.subrange(4, 14)) {
        Some(crate::text::digits_num(name.subrange(4, 14)) as u64)
    } else {
        None
    }
}

/// The segment numbers among the names, in the order given.
pub open spec fn seqs_of(names: Seq<Seq<char>>) -> Seq<u64>
    decreases names.len(),
{
    if names.len() == 0 {
        Seq::empty()
    } else {
        let prev = seqs_of(names.drop_last());
        match segment_seq_of(names.last()) {
            Some(q) => prev.push(q),
            None => prev,
        }
    }
}

/// The segment numbers of the segment files among a directory's entry
/// names, oldest first; other names are ignored.
pub fn segment_seqs(names: &Vec<String>) -> (r: Vec<u64>)
    ensures
        r@.to_multiset() == seqs_of(names@.map_values(|s: String| s@)).to_multiset(),
        forall|i: int, j: int| 0 <= i < j < r@.len() ==> r@[i] <= r@[j],
{
    let ghost nv = names@.map_values(|s: String| s@);
    let mut out: Vec<u64> = Vec::new();
    let n = names.len();
    let mut i: usize = 0;
    while i < n
        invariant
            i <= n == names@.len() == nv.len(),
            nv == names@.map_values(|s: String| s@),
            out@ == seqs_of(nv.take(i as int)),
        decreases n - i,
    {
        let ghost t = nv.take(i + 1);
        assert(t.drop_last() =~= nv.take(i as int));
        assert(t.last() == names@[i as int]@);
        match parse_segment_seq(names[i].as_str()) {
            Some(q) => {
                proof {
                    let mid = names@[i as int]@.subrange(4, 14);
                    assert(crate::text::digits_num(mid) as u64 == q);
                }
                out.push(q);
            },
            None => {},
        }
        i = i + 1;
    }
    assert(nv.take(n as int) =~= nv);
    sort_u64(&mut out);
    out
}

/// Does `truncate_before(cutoff)` delete this segment: a sealed one (not
/// the active segment) whose last valid record is older than `cutoff`?
pub fn is_stale_segment(seq: u64, active_seq: u64, last_ts: Option<i64>, cutoff: i64) -> (b: bool)
    ensures
        b == (seq != active_seq && (last_ts matches Some(t) && t < cutoff)),
{
    seq != active_seq && match last_ts {
        Some(t) => t < cutoff,
        None => false,
    }
}

} // verus!
