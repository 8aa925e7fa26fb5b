//! Serialization. [`TsCodec`] is the one substrate every storage format
//! implements. [`TsJsonCodec`] is the human-readable, columnar JSON form
//! `{"name":..,"timestamps":[..],"values":[..]}`: this module lays out the
//! document, renders timestamps in the chosen style, and reads the
//! timestamp column and the value tokens back out of a document.

use vstd::prelude::*;

use crate::series::TsSeries;
use crate::text::{
    dec_int, dec_nat, digits_num, json_quoted, push_i64_dec, push_json_str, push_u64_padded,
    push_text, push_u64_dec, str_chars, string_from_chars, string_push, trim_str, trimmed, zero_pad,
};

verus! {

/// How timestamps render in a human-readable codec.
#[derive(Copy, Clone, Debug, PartialEq, Eq)]
pub enum TsTimestampStyle {
    EpochNanos,
    EpochMillis,
    /// `YYYY-MM-DDTHH:MM:SS.fffffffffZ`. Encode-only.
    Iso8601,
}

impl Default for TsTimestampStyle {
    fn default() -> (s: Self)
        ensures
            s == TsTimestampStyle::EpochNanos,
    {
        TsTimestampStyle::EpochNanos
    }
}

#[derive(Clone, Debug, PartialEq, Eq)]
pub enum TsCodecError {
    Parse(String),
    UnsupportedTimestampDecode,
}

/// The text shown for a codec error.
pub open spec fn codec_error_text(e: TsCodecError) -> Seq<char> {
    match e {
        TsCodecError::Parse(m) => "parse error: "@ + m@,
        TsCodecError::UnsupportedTimestampDecode => "decoding ISO-8601 timestamps requires the `datetime` feature"@,
    }
}

/// The text of the error a document with unequal timestamp and value
/// columns is refused with.
pub open spec fn length_mismatch_text(ts_len: nat, vals_len: nat) -> Seq<char> {
    "timestamps ("@ + dec_nat(ts_len) + ") and values ("@ + dec_nat(vals_len) + ") length mismatch"@
}

/// A decoded document needs one value per timestamp: `Ok` when the column
/// lengths agree, else a `Parse` error naming both lengths.
pub fn check_column_lengths(ts_len: usize, vals_len: usize) -> (r: Result<(), TsCodecError>)
    ensures
        r is Ok <==> ts_len == vals_len,
        r matches Err(e) ==> e matches TsCodecError::Parse(m) && m@ == length_mismatch_text(
            ts_len as nat,
            vals_len as nat,
        ),
{
    if ts_len == vals_len {
        return Ok(());
    }
    let mut m = "timestamps (".to_owned();
    push_u64_dec(&mut m, ts_len as u64);
    push_text(&mut m, ") and values (");
    push_u64_dec(&mut m, vals_len as u64);
    push_text(&mut m, ") length mismatch");
    Err(TsCodecError::Parse(m))
}

impl TsCodecError {
    /// The error's text.
    pub fn message(&self) -> (m: String)
        ensures
            m@ == codec_error_text(*self),
    {
        match self {
            TsCodecError::Parse(why) => {
                let mut m = "parse error: ".to_owned();
                push_text(&mut m, why.as_str());
                m
            },
            TsCodecError::UnsupportedTimestampDecode => {
                "decoding ISO-8601 timestamps requires the `datetime` feature".to_owned()
            },
        }
    }
}

/// The codec substrate. One value type `T` per impl; wrappers (gzip, etc.)
/// delegate to an inner codec.
pub trait TsCodec<T> {
    type Error;

    fn encode(&self, series: &TsSeries<T>) -> Vec<u8>;

    fn decode(&self, bytes: &[u8]) -> Result<TsSeries<T>, Self::Error>;

    fn format(&self) -> &str;
}

/// Columnar JSON codec: `{"name":..,"timestamps":[..],"values":[..]}`.
#[derive(Clone, Debug)]
pub struct TsJsonCodec {
    pub style: TsTimestampStyle,
    pub pretty: bool,
}

// ---------- calendar ----------

/// The proleptic Gregorian (year, month, day) of day `z` counted from
/// 1970-01-01, by Hinnant's `civil_from_days`.
pub open spec fn civil(z0: int) -> (int, int, int) {
    let z = z0 + 719_468;
    let era = z / 146_097;
    let doe = z - era * 146_097;
    let yoe = (doe - doe / 1_460 + doe / 36_524 - doe / 146_096) / 365;
    let y = yoe + era * 400;
    let doy = doe - (365 * yoe + yoe / 4 - yoe / 100);
    let mp = (5 * doy + 2) / 153;
    let d = doy - (153 * mp + 2) / 5 + 1;
    let m = if mp < 10 {
        mp + 3
    } else {
        mp - 9
    };
    (if m <= 2 {
        y + 1
    } else {
        y
    }, m, d)
}

/// `n` rendered with at least `width` digits; a negative number keeps its
/// sign in front of the zero padding (as `{:0width$}` does).
pub open spec fn padded(n: int, width: nat) -> Seq<char> {
    if n < 0 {
        seq!['-'] + zero_pad(dec_nat((-n) as nat), (width - 1) as nat)
    } else {
        zero_pad(dec_nat(n as nat), width)
    }
}

/// `YYYY-MM-DDTHH:MM:SS.fffffffffZ` (UTC) for a time in epoch nanoseconds.
pub open spec fn iso8601_text(ns: int) -> Seq<char> {
    let secs = ns / 1_000_000_000;
    let sub = ns % 1_000_000_000;
    let days = secs / 86_400;
    let sod = secs % 86_400;
    let ymd = civil(days);
    padded(ymd.0, 4) + seq!['-'] + padded(ymd.1, 2) + seq!['-'] + padded(ymd.2, 2) + seq!['T']
        + padded(sod / 3_600, 2) + seq![':'] + padded((sod % 3_600) / 60, 2) + seq![':'] + padded(
        sod % 60,
        2,
    ) + seq!['.'] + padded(sub, 9) + seq!['Z']
}

fn civil_from_days(z0: i64) -> (r: (i64, i64, i64))
    requires
        -1_000_000_000_000 <= z0 <= 1_000_000_000_000,
    ensures
        r.0 == civil(z0 as int).0,
        r.1 == civil(z0 as int).1,
        r.2 == civil(z0 as int).2,
{
    let z = z0 + 719_468;
    let era = if z >= 0 {
        z
    } else {
        z - 146_096
    } / 146_097;
    assert(era == (z as int) / 146_097);
    let doe = z - era * 146_097;
    let yoe = (doe - doe / 1_460 + doe / 36_524 - doe / 146_096) / 365;
    let y = yoe + era * 400;
    let doy = doe - (365 * yoe + yoe / 4 - yoe / 100);
    let mp = (5 * doy + 2) / 153;
    let d = doy - (153 * mp + 2) / 5 + 1;
    let m = if mp < 10 {
        mp + 3
    } else {
        mp - 9
    };
    (if m <= 2 {
        y + 1
    } else {
        y
    }, m, d)
}

/// Appends `n` rendered as [`padded`]`(n, width)`.
fn push_padded_i64(out: &mut String, n: i64, width: usize)
    requires
        width >= 1,
    ensures
        final(out)@ == old(out)@ + padded(n as int, width as nat),
{
    if n < 0 {
        let ghost start = out@;
        string_push(out, '-');
        let mag: u64 = (-(n as i128)) as u64;
        push_u64_padded(out, mag, width - 1);
        assert(out@ =~= start + padded(n as int, width as nat));
    } else {
        push_u64_padded(out, n as u64, width);
    }
}

/// `(a / 10^9, a % 10^9)`, the quotient rounded down.
fn div_floor_billion(a: i64) -> (r: (i64, i64))
    ensures
        r.0 == (a as int) / 1_000_000_000,
        r.1 == (a as int) % 1_000_000_000,
{
    let q = a / 1_000_000_000;
    let m = a % 1_000_000_000;
    if m < 0 {
        (q - 1, m + 1_000_000_000)
    } else {
        (q, m)
    }
}

/// `(a / 86400, a % 86400)`, the quotient rounded down.
fn div_floor_day(a: i64) -> (r: (i64, i64))
    ensures
        r.0 == (a as int) / 86_400,
        r.1 == (a as int) % 86_400,
{
    let q = a / 86_400;
    let m = a % 86_400;
    if m < 0 {
        (q - 1, m + 86_400)
    } else {
        (q, m)
    }
}

/// `YYYY-MM-DDTHH:MM:SS.fffffffffZ` (UTC) for epoch nanoseconds.
pub fn iso8601_from_nanos(ns: i64) -> (s: String)
    ensures
        s@ == iso8601_text(ns as int),
{
    let (secs, sub) = div_floor_billion(ns);
    let (days, sod) = div_floor_day(secs);
    let (y, m, d) = civil_from_days(days);
    let mut out = String::new();
    push_padded_i64(&mut out, y, 4);
    string_push(&mut out, '-');
    push_padded_i64(&mut out, m, 2);
    string_push(&mut out, '-');
    push_padded_i64(&mut out, d, 2);
    string_push(&mut out, 'T');
    push_padded_i64(&mut out, sod / 3_600, 2);
    string_push(&mut out, ':');
    push_padded_i64(&mut out, (sod % 3_600) / 60, 2);
    string_push(&mut out, ':');
    push_padded_i64(&mut out, sod % 60, 2);
    string_push(&mut out, '.');
    push_padded_i64(&mut out, sub, 9);
    string_push(&mut out, 'Z');
    assert(out@ =~= iso8601_text(ns as int));
    out
}

/// `a / b` rounded toward zero, as Rust's integer division does.
pub open spec fn div_trunc(a: int, b: int) -> int {
    if a >= 0 {
        a / b
    } else {
        -((-a) / b)
    }
}

/// How a timestamp renders in `style`.
pub open spec fn ts_text(style: TsTimestampStyle, ts: i64) -> Seq<char> {
    match style {
        TsTimestampStyle::EpochNanos => dec_int(ts as int),
        TsTimestampStyle::EpochMillis => dec_int(div_trunc(ts as int, 1_000_000)),
        TsTimestampStyle::Iso8601 => seq!['"'] + iso8601_text(ts as int) + seq!['"'],
    }
}

/// The tokens joined by commas.
pub open spec fn join_commas(toks: Seq<Seq<char>>) -> Seq<char>
    decreases toks.len(),
{
    if toks.len() == 0 {
        Seq::empty()
    } else if toks.len() == 1 {
        toks[0]
    } else {
        join_commas(toks.drop_last()) + seq![','] + toks.last()
    }
}

/// The JSON document of a series: its name (when it has one), then the
/// timestamp and value columns. `pretty` adds a newline after each part and
/// a two-space indent before each field.
pub open spec fn json_doc(
    pretty: bool,
    name: Option<Seq<char>>,
    ts_toks: Seq<Seq<char>>,
    val_toks: Seq<Seq<char>>,
) -> Seq<char> {
    let nl = if pretty {
        seq!['\n']
    } else {
        Seq::<char>::empty()
    };
    let sp = if pretty {
        seq![' ', ' ']
    } else {
        Seq::<char>::empty()
    };
    let name_part = match name {
        Some(n) => sp + seq!['"', 'n', 'a', 'm', 'e', '"', ':'] + json_quoted(n) + seq![','] + nl,
        None => Seq::<char>::empty(),
    };
    seq!['{'] + nl + name_part + sp + seq![
        '"',
        't',
        'i',
        'm',
        'e',
        's',
        't',
        'a',
        'm',
        'p',
        's',
        '"',
        ':',
        '[',
    ] + join_commas(ts_toks) + seq![']', ','] + nl + sp + seq![
        '"',
        'v',
        'a',
        'l',
        'u',
        'e',
        's',
        '"',
        ':',
        '[',
    ] + join_commas(val_toks) + seq![']'] + nl + seq!['}']
}

fn push_lit(out: &mut String, lit: &[char])
    ensures
        final(out)@ == old(out)@ + lit@,
{
    let ghost start = out@;
    for i in 0..lit.len()
        invariant
            out@ == start + lit@.take(i as int),
    {
        string_push(out, lit[i]);
        assert(lit@.take(i + 1) =~= lit@.take(i as int).push(lit@[i as int]));
    }
    assert(lit@.take(lit@.len() as int) =~= lit@);
}

/// Appends the tokens, comma-separated.
fn push_joined(out: &mut String, values: &[String])
    ensures
        final(out)@ == old(out)@ + join_commas(values@.map_values(|v: String| v@)),
{
    let ghost vt = values@.map_values(|v: String| v@);
    let ghost before = out@;
    for i in 0..values.len()
        invariant
            vt == values@.map_values(|v: String| v@),
            out@ == before + join_commas(vt.take(i as int)),
    {
        if i > 0 {
            string_push(out, ',');
        }
        out.append(values[i].as_str());
        proof {
            assert(vt.take(i + 1).drop_last() =~= vt.take(i as int));
            assert(vt.take(i + 1).last() == values@[i as int]@);
            if i == 0 {
                assert(vt.take(0) =~= Seq::<Seq<char>>::empty());
            }
            assert(out@ =~= before + join_commas(vt.take(i + 1)));
        }
    }
    assert(vt.take(values@.len() as int) =~= vt);
}

fn push_newline(out: &mut String, pretty: bool)
    ensures
        final(out)@ == old(out)@ + if pretty {
            seq!['\n']
        } else {
            Seq::<char>::empty()
        },
{
    if pretty {
        string_push(out, '\n');
    } else {
        assert(out@ =~= out@ + Seq::<char>::empty());
    }
}

fn push_indent(out: &mut String, pretty: bool)
    ensures
        final(out)@ == old(out)@ + if pretty {
            seq![' ', ' ']
        } else {
            Seq::<char>::empty()
        },
{
    let ghost start = out@;
    if pretty {
        string_push(out, ' ');
        string_push(out, ' ');
        assert(out@ =~= start + seq![' ', ' ']);
    } else {
        assert(out@ =~= out@ + Seq::<char>::empty());
    }
}

/// Appends the `"name":"..",` field (indented and followed by a newline
/// when pretty), or nothing without a name.
fn push_name_field(out: &mut String, name: Option<&str>, pretty: bool)
    ensures
        final(out)@ == old(out)@ + match name {
            Some(n) => (if pretty {
                seq![' ', ' ']
            } else {
                Seq::<char>::empty()
            }) + seq!['"', 'n', 'a', 'm', 'e', '"', ':'] + json_quoted(n@) + seq![','] + (if pretty {
                seq!['\n']
            } else {
                Seq::<char>::empty()
            }),
            None => Seq::<char>::empty(),
        },
{
    let ghost start = out@;
    match name {
        Some(n) => {
            push_indent(out, pretty);
            let head = ['"', 'n', 'a', 'm', 'e', '"', ':'];
            push_lit(out, head.as_slice());
            push_json_str(out, n);
            string_push(out, ',');
            push_newline(out, pretty);
            assert(head@ =~= seq!['"', 'n', 'a', 'm', 'e', '"', ':']);
            assert(out@ =~= start + ((if pretty {
                seq![' ', ' ']
            } else {
                Seq::<char>::empty()
            }) + seq!['"', 'n', 'a', 'm', 'e', '"', ':'] + json_quoted(n@) + seq![','] + (if pretty {
                seq!['\n']
            } else {
                Seq::<char>::empty()
            })));
        },
        None => {
            assert(out@ =~= start + Seq::<char>::empty());
        },
    }
}

impl Default for TsJsonCodec {
    fn default() -> (c: Self)
        ensures
            c.style == TsTimestampStyle::EpochNanos,
            !c.pretty,
    {
        TsJsonCodec { style: TsTimestampStyle::EpochNanos, pretty: false }
    }
}

impl TsJsonCodec {
    /// Epoch-nanosecond timestamps, compact output.
    pub fn new() -> (c: Self)
        ensures
            c.style == TsTimestampStyle::EpochNanos,
            !c.pretty,
    {
        TsJsonCodec { style: TsTimestampStyle::EpochNanos, pretty: false }
    }

    pub fn with_style(self, style: TsTimestampStyle) -> (c: Self)
        ensures
            c.style == style,
            c.pretty == self.pretty,
    {
        TsJsonCodec { style, pretty: self.pretty }
    }

    pub fn pretty(self, pretty: bool) -> (c: Self)
        ensures
            c.pretty == pretty,
            c.style == self.style,
    {
        TsJsonCodec { style: self.style, pretty }
    }

    /// The codec's format name.
    pub fn format(&self) -> (f: &'static str)
        ensures
            f@ == seq!['j', 's', 'o', 'n'],
    {
        proof {
            reveal_strlit("json");
        }
        "json"
    }

    /// A timestamp rendered in the codec's style.
    pub fn ts_token(&self, ts: i64) -> (s: String)
        ensures
            s@ == ts_text(self.style, ts),
    {
        let mut out = String::new();
        match self.style {
            TsTimestampStyle::EpochNanos => {
                push_i64_dec(&mut out, ts);
            },
            TsTimestampStyle::EpochMillis => {
                let q = ts / 1_000_000;
                assert(q == div_trunc(ts as int, 1_000_000));
                push_i64_dec(&mut out, q);
            },
            TsTimestampStyle::Iso8601 => {
                string_push(&mut out, '"');
                let iso = iso8601_from_nanos(ts);
                out.append(iso.as_str());
                string_push(&mut out, '"');
                assert(out@ =~= seq!['"'] + iso8601_text(ts as int) + seq!['"']);
            },
        }
        assert(out@ =~= ts_text(self.style, ts));
        out
    }

    /// Appends the timestamps' tokens, comma-separated.
    fn push_ts_tokens(&self, out: &mut String, timestamps: &[i64])
        ensures
            final(out)@ == old(out)@ + join_commas(
                timestamps@.map_values(|t: i64| ts_text(self.style, t)),
            ),
    {
        let ghost tt = timestamps@.map_values(|t: i64| ts_text(self.style, t));
        let ghost before = out@;
        for i in 0..timestamps.len()
            invariant
                tt == timestamps@.map_values(|t: i64| ts_text(self.style, t)),
                out@ == before + join_commas(tt.take(i as int)),
        {
            if i > 0 {
                string_push(out, ',');
            }
            let tok = self.ts_token(timestamps[i]);
            out.append(tok.as_str());
            proof {
                assert(tt.take(i + 1).drop_last() =~= tt.take(i as int));
                assert(tt.take(i + 1).last() == ts_text(self.style, timestamps@[i as int]));
                if i == 0 {
                    assert(tt.take(0) =~= Seq::<Seq<char>>::empty());
                }
                assert(out@ =~= before + join_commas(tt.take(i + 1)));
            }
        }
        assert(tt.take(timestamps@.len() as int) =~= tt);
    }

    /// The JSON document for a series with this name (if any), these
    /// timestamps and these already-rendered value tokens.
    #[verifier::rlimit(50)]
    pub fn encode_document(&self, name: Option<&str>, timestamps: &[i64], values: &[String]) -> (doc: String)
        ensures
            doc@ == json_doc(
                self.pretty,
                match name {
                    Some(n) => Some(n@),
                    None => None,
                },
                timestamps@.map_values(|t: i64| ts_text(self.style, t)),
                values@.map_values(|v: String| v@),
            ),
    {
        let pretty = self.pretty;
        let ghost nl = if pretty {
            seq!['\n']
        } else {
            Seq::<char>::empty()
        };
        let ghost sp = if pretty {
            seq![' ', ' ']
        } else {
            Seq::<char>::empty()
        };
        let ghost name_part = match name {
            Some(n) => sp + seq!['"', 'n', 'a', 'm', 'e', '"', ':'] + json_quoted(n@) + seq![','] + nl,
            None => Seq::<char>::empty(),
        };
        let ghost tt = timestamps@.map_values(|t: i64| ts_text(self.style, t));
        let ghost vt = values@.map_values(|v: String| v@);
        let mut out = String::new();
        string_push(&mut out, '{');
        push_newline(&mut out, pretty);
        let ghost p1 = out@;
        assert(p1 =~= seq!['{'] + nl);
        push_name_field(&mut out, name, pretty);
        let ghost p2 = out@;
        assert(p2 == p1 + name_part);
        push_indent(&mut out, pretty);
        let ts_head = ['"', 't', 'i', 'm', 'e', 's', 't', 'a', 'm', 'p', 's', '"', ':', '['];
        push_lit(&mut out, ts_head.as_slice());
        self.push_ts_tokens(&mut out, timestamps);
        let ghost p3 = out@;
        assert(p3 == p2 + sp + ts_head@ + join_commas(tt));
        let ts_tail = [']', ','];
        push_lit(&mut out, ts_tail.as_slice());
        push_newline(&mut out, pretty);
        push_indent(&mut out, pretty);
        let val_head = ['"', 'v', 'a', 'l', 'u', 'e', 's', '"', ':', '['];
        push_lit(&mut out, val_head.as_slice());
        push_joined(&mut out, values);
        let ghost p4 = out@;
        assert(p4 == p3 + ts_tail@ + nl + sp + val_head@ + join_commas(vt));
        string_push(&mut out, ']');
        push_newline(&mut out, pretty);
        string_push(&mut out, '}');
        proof {
            assert(ts_head@ =~= seq![
                '"',
                't',
                'i',
                'm',
                'e',
                's',
                't',
                'a',
                'm',
                'p',
                's',
                '"',
                ':',
                '[',
            ]);
            assert(ts_tail@ =~= seq![']', ',']);
            assert(val_head@ =~= seq!['"', 'v', 'a', 'l', 'u', 'e', 's', '"', ':', '[']);
            assert(out@ =~= p4 + seq![']'] + nl + seq!['}']);
            let doc = json_doc(
                self.pretty,
                match name {
                    Some(n) => Some(n@),
                    None => None,
                },
                tt,
                vt,
            );
            assert(doc =~= seq!['{'] + nl + name_part + sp + ts_head@ + join_commas(tt) + ts_tail@ + nl + sp
                + val_head@ + join_commas(vt) + seq![']'] + nl + seq!['}']);
            assert(out@ =~= doc);
        }
        out
    }
}

// ---------- reading a document back ----------

/// `n` occurs in `h` at position `k`.
pub open spec fn occurs_in(h: Seq<char>, n: Seq<char>, k: int) -> bool {
    0 <= k && k + n.len() <= h.len() && h.subrange(k, k + n.len()) == n
}

/// The first position at or after `from` where `n` occurs in `h`; `-1`
/// when there is none.
pub open spec fn leftmost(h: Seq<char>, n: Seq<char>, from: int) -> int
    decreases h.len() - from,
{
    if from < 0 || from + n.len() > h.len() {
        -1
    } else if n.len() == 0 || occurs_in(h, n, from) {
        from
    } else {
        leftmost(h, n, from + 1)
    }
}

/// Where the `[...]` array after `"key"` sits in `t`: the body between the
/// first `[` after the first `"key"` and the first `]` after that.
pub open spec fn array_span(t: Seq<char>, key: Seq<char>) -> Option<(int, int)> {
    let needle = seq!['"'] + key + seq!['"'];
    let kpos = leftmost(t, needle, 0);
    if kpos < 0 {
        None
    } else {
        let open = leftmost(t, seq!['['], kpos + needle.len());
        if open < 0 {
            None
        } else {
            let close = leftmost(t, seq![']'], open + 1);
            if close < 0 {
                None
            } else {
                Some((open + 1, close))
            }
        }
    }
}

/// `s` split on `sep`, scanning from `i` inside a piece that began at
/// `start`.
pub open spec fn split_on(s: Seq<char>, sep: char, start: int, i: int) -> Seq<Seq<char>>
    decreases s.len() - i,
{
    if i >= s.len() {
        seq![s.subrange(start, s.len() as int)]
    } else if s[i] == sep {
        seq![s.subrange(start, i)] + split_on(s, sep, i + 1, i + 1)
    } else {
        split_on(s, sep, start, i + 1)
    }
}

/// The non-empty trimmed pieces of `pieces`, in order.
pub open spec fn kept_tokens(pieces: Seq<Seq<char>>) -> Seq<Seq<char>>
    decreases pieces.len(),
{
    if pieces.len() == 0 {
        Seq::empty()
    } else {
        let rest = kept_tokens(pieces.drop_last());
        let t = trimmed(pieces.last());
        if t.len() == 0 {
            rest
        } else {
            rest.push(t)
        }
    }
}

/// The comma-separated, trimmed, non-empty tokens of the array after
/// `"key"`; `None` when there is no such array.
pub open spec fn array_tokens_of(t: Seq<char>, key: Seq<char>) -> Option<Seq<Seq<char>>> {
    match array_span(t, key) {
        Some((a, b)) => Some(kept_tokens(split_on(t.subrange(a, b), ',', 0, 0))),
        None => None,
    }
}

/// Rust's `i64` text form: an optional `+` or `-`, then one or more ASCII
/// digits, in range.
pub open spec fn i64_text(s: Seq<char>) -> Option<i64> {
    let neg = s.len() > 0 && s[0] == '-';
    let digits = if s.len() > 0 && (s[0] == '-' || s[0] == '+') {
        s.skip(1)
    } else {
        s
    };
    if digits.len() == 0 || !crate::text::all_digits(digits) {
        None
    } else {
        let v = if neg {
            -digits_num(digits)
        } else {
            digits_num(digits)
        };
        if i64::MIN <= v <= i64::MAX {
            Some(v as i64)
        } else {
            None
        }
    }
}

/// Every token reads as an `i64`.
pub open spec fn all_i64(toks: Seq<Seq<char>>) -> bool {
    forall|i: int| 0 <= i < toks.len() ==> #[trigger] i64_text(toks[i]) is Some
}

proof fn lemma_leftmost(h: Seq<char>, n: Seq<char>, from: int)
    ensures
        leftmost(h, n, from) >= 0 ==> from <= leftmost(h, n, from),
        leftmost(h, n, from) >= 0 ==> leftmost(h, n, from) + n.len() <= h.len(),
        leftmost(h, n, from) >= 0 ==> occurs_in(h, n, leftmost(h, n, from)),
    decreases h.len() - from,
{
    if from < 0 || from + n.len() > h.len() {
    } else if n.len() == 0 || occurs_in(h, n, from) {
        if n.len() == 0 {
            assert(h.subrange(from, from) =~= n);
        }
    } else {
        lemma_leftmost(h, n, from + 1);
    }
}

fn find_from(h: &Vec<char>, n: &Vec<char>, from: usize) -> (r: Option<usize>)
    requires
        from <= h@.len(),
    ensures
        match r {
            Some(k) => k as int == leftmost(h@, n@, from as int),
            None => leftmost(h@, n@, from as int) < 0,
        },
{
    let hl = h.len();
    let nl = n.len();
    if nl == 0 {
        return Some(from);
    }
    if nl > hl {
        return None;
    }
    let mut k: usize = from;
    while k <= hl - nl
        invariant
            from <= k,
            nl == n@.len(),
            hl == h@.len(),
            nl >= 1,
            nl <= hl,
            leftmost(h@, n@, from as int) == leftmost(h@, n@, k as int),
        decreases hl - k,
    {
        let mut j: usize = 0;
        assert(h@.subrange(k as int, k as int) =~= n@.take(0));
        while j < nl && h[k + j] == n[j]
            invariant
                j <= nl,
                k + nl <= hl,
                nl == n@.len(),
                hl == h@.len(),
                h@.subrange(k as int, k + j) == n@.take(j as int),
            decreases nl - j,
        {
            assert(h@.subrange(k as int, k + j + 1) =~= h@.subrange(k as int, k + j).push(h@[k + j]));
            assert(n@.take(j + 1) =~= n@.take(j as int).push(n@[j as int]));
            j = j + 1;
        }
        if j == nl {
            assert(n@.take(nl as int) =~= n@);
            return Some(k);
        }
        assert(h@.subrange(k as int, k + nl)[j as int] == h@[k + j]);
        assert(h@.subrange(k as int, k + nl) != n@);
        k = k + 1;
    }
    None
}

/// Split `body` on `,`, trim each piece, keep the non-empty ones.
fn tokens_of(body: &Vec<char>) -> (r: Vec<String>)
    ensures
        r@.map_values(|s: String| s@) == kept_tokens(split_on(body@, ',', 0, 0)),
{
    let n = body.len();
    let mut out: Vec<String> = Vec::new();
    let ghost mut done: Seq<Seq<char>> = Seq::empty();
    let mut start: usize = 0;
    let mut i: usize = 0;
    while i < n
        invariant
            start <= i <= n,
            n == body@.len(),
            done + split_on(body@, ',', start as int, i as int) == split_on(body@, ',', 0, 0),
            out@.map_values(|s: String| s@) == kept_tokens(done),
        decreases n - i,
    {
        if body[i] == ',' {
            let piece = string_from_chars(body, start, i);
            let t = trim_str(piece.as_str());
            let ghost prev = out@;
            if !t.as_str().is_empty() {
                out.push(t);
                assert(out@.map_values(|s: String| s@) =~= prev.map_values(|s: String| s@).push(t@));
            }
            proof {
                let p = body@.subrange(start as int, i as int);
                assert(done.push(p).drop_last() =~= done);
                assert(kept_tokens(done.push(p)) == if trimmed(p).len() == 0 {
                    kept_tokens(done)
                } else {
                    kept_tokens(done).push(trimmed(p))
                });
                assert(done.push(p) =~= done + seq![p]);
                assert(split_on(body@, ',', start as int, i as int) == seq![p] + split_on(body@, ',', i + 1, i + 1));
                assert(done + seq![p] + split_on(body@, ',', i + 1, i + 1) =~= done + split_on(body@, ',', start as int, i as int));
                done = done.push(p);
                assert(done == done.drop_last().push(p));
            }
            i = i + 1;
            start = i;
        } else {
            i = i + 1;
        }
    }
    let piece = string_from_chars(body, start, n);
    let t = trim_str(piece.as_str());
    let ghost prev = out@;
    if !t.as_str().is_empty() {
        out.push(t);
        assert(out@.map_values(|s: String| s@) =~= prev.map_values(|s: String| s@).push(t@));
    }
    proof {
        let p = body@.subrange(start as int, n as int);
        assert(split_on(body@, ',', start as int, n as int) == seq![p]);
        assert(done.push(p).drop_last() =~= done);
        assert(done + seq![p] =~= split_on(body@, ',', 0, 0));
        assert(kept_tokens(done.push(p)) == if trimmed(p).len() == 0 {
            kept_tokens(done)
        } else {
            kept_tokens(done).push(trimmed(p))
        });
        assert(done.push(p) =~= done + seq![p]);
        done = done.push(p);
    }
    out
}

/// Read `s` as an `i64` (optional sign, then decimal digits).
fn parse_i64(s: &str) -> (r: Option<i64>)
    ensures
        r == i64_text(s@),
{
    let c = str_chars(s);
    let n = c.len();
    let neg = n > 0 && c[0] == '-';
    let from: usize = if n > 0 && (c[0] == '-' || c[0] == '+') {
        1
    } else {
        0
    };
    let ghost digits = if s@.len() > 0 && (s@[0] == '-' || s@[0] == '+') {
        s@.skip(1)
    } else {
        s@
    };
    assert(digits =~= c@.skip(from as int));
    if from == n {
        return None;
    }
    let mut mag: u64 = 0;
    let mut big = false;
    let mut i: usize = from;
    while i < n
        invariant
            from <= i <= n,
            n == c@.len(),
            c@ == s@,
            digits == c@.skip(from as int),
            digits == (if s@.len() > 0 && (s@[0] == '-' || s@[0] == '+') {
                s@.skip(1)
            } else {
                s@
            }),
            neg == (s@.len() > 0 && s@[0] == '-'),
            crate::text::all_digits(c@.subrange(from as int, i as int)),
            !big ==> mag == digits_num(c@.subrange(from as int, i as int)),
            big ==> digits_num(c@.subrange(from as int, i as int)) > u64::MAX,
            digits_num(c@.subrange(from as int, i as int)) >= 0,
        decreases n - i,
    {
        let ch = c[i];
        proof {
            assert(c@.subrange(from as int, i + 1).drop_last() =~= c@.subrange(from as int, i as int));
        }
        if !('0' <= ch && ch <= '9') {
            proof {
                assert(digits[i - from] == ch);
                assert(!crate::text::all_digits(digits));
                assert(i64_text(s@) is None);
            }
            return None;
        }
        let d = (ch as u32 - 48) as u64;
        if !big {
            if mag > (u64::MAX - d) / 10 {
                big = true;
            } else {
                mag = mag * 10 + d;
            }
        }
        i = i + 1;
    }
    assert(c@.subrange(from as int, n as int) =~= digits);
    if big {
        return None;
    }
    if neg {
        if mag > 9_223_372_036_854_775_808u64 {
            None
        } else {
            Some((-(mag as i128)) as i64)
        }
    } else {
        if mag > 9_223_372_036_854_775_807u64 {
            None
        } else {
            Some(mag as i64)
        }
    }
}

impl TsJsonCodec {
    /// The trimmed, non-empty tokens of the `[...]` array after `"key"` in
    /// `text`. A missing key, a missing `[` or an unterminated array is a
    /// `Parse` error.
    pub fn array_tokens(text: &str, key: &str) -> (r: Result<Vec<String>, TsCodecError>)
        ensures
            match r {
                Ok(v) => array_tokens_of(text@, key@) == Some(v@.map_values(|s: String| s@)),
                Err(e) => e is Parse && array_tokens_of(text@, key@) is None,
            },
    {
        let t = str_chars(text);
        let _tl = t.len();
        let k = str_chars(key);
        let mut needle: Vec<char> = Vec::new();
        needle.push('"');
        for i in 0..k.len()
            invariant
                needle@ == seq!['"'] + k@.take(i as int),
        {
            needle.push(k[i]);
            assert(needle@ =~= seq!['"'] + k@.take(i + 1));
        }
        needle.push('"');
        assert(k@.take(k@.len() as int) =~= k@);
        assert(needle@ =~= seq!['"'] + key@ + seq!['"']);
        let kpos = match find_from(&t, &needle, 0) {
            Some(p) => p,
            None => {
                return Err(TsCodecError::Parse("missing key".to_string()));
            },
        };
        proof {
            lemma_leftmost(t@, needle@, 0);
            assert(kpos as int == leftmost(t@, needle@, 0));
            assert(kpos + needle@.len() <= t@.len());
        }
        let after = kpos + needle.len();
        let open_v: Vec<char> = vec!['['];
        let close_v: Vec<char> = vec![']'];
        assert(open_v@ =~= seq!['[']);
        assert(close_v@ =~= seq![']']);
        if after > t.len() {
            return Err(TsCodecError::Parse("no array after key".to_string()));
        }
        let open = match find_from(&t, &open_v, after) {
            Some(p) => p,
            None => {
                return Err(TsCodecError::Parse("no array after key".to_string()));
            },
        };
        proof {
            lemma_leftmost(t@, open_v@, after as int);
        }
        if open + 1 > t.len() {
            return Err(TsCodecError::Parse("unterminated array".to_string()));
        }
        let close = match find_from(&t, &close_v, open + 1) {
            Some(p) => p,
            None => {
                return Err(TsCodecError::Parse("unterminated array".to_string()));
            },
        };
        proof {
            lemma_leftmost(t@, close_v@, open + 1);
        }
        let mut body: Vec<char> = Vec::new();
        for i in open + 1..close
            invariant
                open + 1 <= close <= t@.len(),
                body@ == t@.subrange(open + 1, i as int),
        {
            body.push(t[i]);
            assert(body@ =~= t@.subrange(open + 1, i + 1));
        }
        Ok(tokens_of(&body))
    }

    /// The `i64` values of the `[...]` array after `"key"` in `text`. Errors
    /// as [`array_tokens`](Self::array_tokens) does, and a token that does
    /// not read as an `i64` is a `Parse` error.
    pub fn extract_number_array(text: &str, key: &str) -> (r: Result<Vec<i64>, TsCodecError>)
        ensures
            match r {
                Ok(v) => array_tokens_of(text@, key@) matches Some(toks) && all_i64(toks)
                    && v@ == toks.map_values(|t: Seq<char>| i64_text(t)->0),
                Err(e) => e is Parse && match array_tokens_of(text@, key@) {
                    Some(toks) => !all_i64(toks),
                    None => true,
                },
            },
    {
        let toks = Self::array_tokens(text, key)?;
        let ghost tv = toks@.map_values(|s: String| s@);
        let mut out: Vec<i64> = Vec::new();
        for i in 0..toks.len()
            invariant
                tv == toks@.map_values(|s: String| s@),
                array_tokens_of(text@, key@) == Some(tv),
                out@.len() == i,
                forall|j: int| 0 <= j < i ==> #[trigger] i64_text(tv[j]) is Some,
                forall|j: int| 0 <= j < i ==> out@[j] == i64_text(#[trigger] tv[j])->0,
        {
            match parse_i64(toks[i].as_str()) {
                Some(x) => {
                    out.push(x);
                },
                None => {
                    assert(!all_i64(tv)) by {
                        assert(i64_text(tv[i as int]) is None);
                    }
                    return Err(TsCodecError::Parse("bad timestamp token".to_string()));
                },
            }
        }
        assert(out@ =~= tv.map_values(|t: Seq<char>| i64_text(t)->0));
        Ok(out)
    }

    /// The factor a decoded timestamp is multiplied by to get nanoseconds:
    /// 1 for nanoseconds, 10^6 for milliseconds. ISO timestamps do not
    /// decode.
    pub fn timestamp_scale(&self) -> (r: Result<i64, TsCodecError>)
        ensures
            r == match self.style {
                TsTimestampStyle::EpochNanos => Ok::<i64, TsCodecError>(1),
                TsTimestampStyle::EpochMillis => Ok::<i64, TsCodecError>(1_000_000),
                TsTimestampStyle::Iso8601 => Err(TsCodecError::UnsupportedTimestampDecode),
            },
    {
        match self.style {
            TsTimestampStyle::EpochNanos => Ok(1),
            TsTimestampStyle::EpochMillis => Ok(1_000_000),
            TsTimestampStyle::Iso8601 => Err(TsCodecError::UnsupportedTimestampDecode),
        }
    }
}

/// The decoded timestamps multiplied by the style's scale; `None` when a
/// product does not fit in `i64`.
pub fn scale_timestamps(ts: &Vec<i64>, scale: i64) -> (r: Option<Vec<i64>>)
    ensures
        match r {
            Some(v) => v@.len() == ts@.len() && forall|i: int|
                0 <= i < ts@.len() ==> #[trigger] v@[i] == ts@[i] * scale,
            None => exists|i: int|
                0 <= i < ts@.len() && !(i64::MIN <= #[trigger] (ts@[i] * scale) <= i64::MAX),
        },
{
    let mut out: Vec<i64> = Vec::new();
    let n = ts.len();
    let mut i: usize = 0;
    while i < n
        invariant
            i <= n == ts@.len(),
            out@.len() == i,
            forall|k: int| 0 <= k < i ==> #[trigger] out@[k] == ts@[k] * scale,
        decreases n - i,
    {
        match ts[i].checked_mul(scale) {
            Some(x) => {
                out.push(x);
            },
            None => {
                assert(!(i64::MIN <= ts@[i as int] * scale <= i64::MAX));
                return None;
            },
        }
        i = i + 1;
    }
    Some(out)
}

} // verus!
