//! Reading back what [`TsJsonCodec`](crate::TsJsonCodec) writes: the
//! `"timestamps"` and `"values"` arrays of an encoded document come back as
//! the tokens that went in, and every timestamp token reads back as the
//! number it renders.

use vstd::prelude::*;

use crate::codec::{
    array_span, array_tokens_of, div_trunc, i64_text, join_commas, json_doc, kept_tokens, leftmost,
    occurs_in, split_on, ts_text, TsTimestampStyle,
};
use crate::text::{
    all_digits, dec_int, dec_nat, digit_char, digits_num, is_ws, json_escape_char, json_escaped,
    json_quoted, trim_back, trim_front, trimmed,
};

verus! {

proof fn lemma_digit_char(d: nat)
    requires
        d < 10,
    ensures
        '0' <= digit_char(d) <= '9',
        digit_char(d) as int - 48 == d,
{
    let b: u8 = (d + 48) as u8;
    assert(b == d + 48);
    assert((b as char) as int == b as int);
}

/// The digits of `n` read back as `n`.
pub proof fn lemma_dec_nat_reads_back(n: nat)
    ensures
        dec_nat(n).len() > 0,
        all_digits(dec_nat(n)),
        digits_num(dec_nat(n)) == n,
    decreases n,
{
    if n < 10 {
        lemma_digit_char(n);
        assert(dec_nat(n).drop_last() =~= Seq::<char>::empty());
        assert(digits_num(dec_nat(n)) == digits_num(Seq::<char>::empty()) * 10 + (dec_nat(
            n,
        ).last() as int - 48));
    } else {
        lemma_dec_nat_reads_back(n / 10);
        lemma_digit_char(n % 10);
        let s = dec_nat(n);
        assert(s.drop_last() =~= dec_nat(n / 10));
        assert(digits_num(s) == digits_num(dec_nat(n / 10)) * 10 + (s.last() as int - 48));
        assert((n / 10) * 10 + n % 10 == n) by (nonlinear_arith);
    }
}

/// A token made of ASCII digits with at most a leading minus sign.
pub open spec fn number_token(s: Seq<char>) -> bool {
    &&& s.len() > 0
    &&& forall|i: int| 0 <= i < s.len() ==> ('0' <= #[trigger] s[i] <= '9') || (i == 0 && s[i] == '-')
}

/// An `i64`'s decimal rendering reads back as that `i64`.
pub proof fn lemma_dec_int_reads_back(t: int)
    requires
        i64::MIN <= t <= i64::MAX,
    ensures
        i64_text(dec_int(t)) == Some(t as i64),
        number_token(dec_int(t)),
{
    let s = dec_int(t);
    if t < 0 {
        lemma_dec_nat_reads_back((-t) as nat);
        assert(s.skip(1) =~= dec_nat((-t) as nat));
        assert forall|i: int| 0 <= i < s.len() implies ('0' <= #[trigger] s[i] <= '9') || (i == 0
            && s[i] == '-') by {
            if i > 0 {
                assert(s[i] == dec_nat((-t) as nat)[i - 1]);
            }
        }
    } else {
        lemma_dec_nat_reads_back(t as nat);
        let d = dec_nat(t as nat);
        assert('0' <= d[0] <= '9');
    }
}

/// A token the array reader gives back unchanged: non-empty, without commas
/// or closing brackets, and not starting or ending with whitespace.
pub open spec fn plain_token(s: Seq<char>) -> bool {
    &&& s.len() > 0
    &&& forall|i: int| 0 <= i < s.len() ==> #[trigger] s[i] != ',' && s[i] != ']'
    &&& !is_ws(s[0])
    &&& !is_ws(s.last())
}

proof fn lemma_number_token_plain(s: Seq<char>)
    requires
        number_token(s),
    ensures
        plain_token(s),
{
    assert(s[0] == '-' || ('0' <= s[0] <= '9'));
    assert('0' <= s[s.len() - 1] <= '9' || s[s.len() - 1] == '-');
}

proof fn lemma_join_front(toks: Seq<Seq<char>>)
    requires
        toks.len() >= 2,
    ensures
        join_commas(toks) == toks[0] + seq![','] + join_commas(toks.drop_first()),
    decreases toks.len(),
{
    if toks.len() == 2 {
        assert(toks.drop_last() =~= seq![toks[0]]);
        assert(toks.drop_first() =~= seq![toks[1]]);
        assert(join_commas(seq![toks[0]]) == toks[0]);
        assert(join_commas(seq![toks[1]]) == toks[1]);
    } else {
        lemma_join_front(toks.drop_last());
        assert(toks.drop_last().drop_first() =~= toks.drop_first().drop_last());
        assert(toks.drop_first().last() == toks.last());
        assert(join_commas(toks.drop_first()) == join_commas(toks.drop_first().drop_last()) + seq![
            ',',
        ] + toks.drop_first().last());
        assert(toks.drop_last()[0] == toks[0]);
        assert(join_commas(toks) =~= toks[0] + seq![','] + join_commas(toks.drop_first()));
    }
}

/// Splitting skips over a stretch without separators.
proof fn lemma_split_skip(h: Seq<char>, sep: char, start: int, i: int, j: int)
    requires
        0 <= i <= j <= h.len(),
        forall|k: int| i <= k < j ==> h[k] != sep,
    ensures
        split_on(h, sep, start, i) == split_on(h, sep, start, j),
    decreases j - i,
{
    if i < j {
        lemma_split_skip(h, sep, start, i + 1, j);
    }
}

/// Splitting the tail of `p + s` is splitting `s`.
proof fn lemma_split_shift(p: Seq<char>, s: Seq<char>, sep: char, a: int, b: int)
    requires
        0 <= a <= b <= s.len(),
    ensures
        split_on(p + s, sep, p.len() + a, p.len() + b) == split_on(s, sep, a, b),
    decreases s.len() - b,
{
    let h = p + s;
    if b < s.len() {
        assert(h[p.len() + b] == s[b]);
        if s[b] == sep {
            lemma_split_shift(p, s, sep, b + 1, b + 1);
            assert(h.subrange(p.len() + a, p.len() + b) =~= s.subrange(a, b));
        } else {
            lemma_split_shift(p, s, sep, a, b + 1);
        }
    } else {
        assert(h.subrange(p.len() + a, h.len() as int) =~= s.subrange(a, s.len() as int));
    }
}

proof fn lemma_split_single(t: Seq<char>)
    requires
        forall|k: int| 0 <= k < t.len() ==> t[k] != ',',
    ensures
        split_on(t, ',', 0, 0) == seq![t],
{
    lemma_split_skip(t, ',', 0, 0, t.len() as int);
    assert(t.subrange(0, t.len() as int) =~= t);
}

proof fn lemma_split_front(t: Seq<char>, rest: Seq<char>)
    requires
        forall|k: int| 0 <= k < t.len() ==> t[k] != ',',
    ensures
        split_on(t + seq![','] + rest, ',', 0, 0) == seq![t] + split_on(rest, ',', 0, 0),
{
    let h = t + seq![','] + rest;
    let p = t + seq![','];
    assert(h =~= p + rest);
    assert forall|k: int| 0 <= k < t.len() implies h[k] != ',' by {
        assert(h[k] == t[k]);
    }
    lemma_split_skip(h, ',', 0, 0, t.len() as int);
    assert(h[t.len() as int] == ',');
    assert(h.subrange(0, t.len() as int) =~= t);
    lemma_split_shift(p, rest, ',', 0, 0);
    assert(p.len() == t.len() + 1);
}

proof fn lemma_kept_concat(a: Seq<Seq<char>>, b: Seq<Seq<char>>)
    ensures
        kept_tokens(a + b) == kept_tokens(a) + kept_tokens(b),
    decreases b.len(),
{
    if b.len() == 0 {
        assert(a + b =~= a);
        assert(kept_tokens(a) + Seq::<Seq<char>>::empty() =~= kept_tokens(a));
    } else {
        lemma_kept_concat(a, b.drop_last());
        assert((a + b).drop_last() =~= a + b.drop_last());
        assert((a + b).last() == b.last());
        let t = trimmed(b.last());
        if t.len() != 0 {
            assert(kept_tokens(a) + kept_tokens(b) =~= (kept_tokens(a) + kept_tokens(b.drop_last())).push(t));
        }
    }
}

proof fn lemma_trimmed_plain(t: Seq<char>)
    requires
        plain_token(t),
    ensures
        trimmed(t) == t,
{
    assert(trim_front(t) == t);
    assert(trim_back(t) == t);
}

/// Comma-joined plain tokens split back into the same tokens.
pub proof fn lemma_join_reads_back(toks: Seq<Seq<char>>)
    requires
        forall|i: int| 0 <= i < toks.len() ==> plain_token(#[trigger] toks[i]),
    ensures
        kept_tokens(split_on(join_commas(toks), ',', 0, 0)) == toks,
    decreases toks.len(),
{
    if toks.len() == 0 {
        let e = Seq::<char>::empty();
        assert(e.subrange(0, 0) =~= e);
        assert(split_on(e, ',', 0, 0) == seq![e]);
        assert(seq![e].drop_last() =~= Seq::<Seq<char>>::empty());
        assert(trim_front(e) == e);
        assert(trim_back(e) == e);
        assert(trimmed(e).len() == 0);
        assert(seq![e].last() == e);
        assert(kept_tokens(Seq::<Seq<char>>::empty()) == Seq::<Seq<char>>::empty());
        assert(kept_tokens(seq![e]) == Seq::<Seq<char>>::empty());
        assert(join_commas(toks) == e);
        assert(toks =~= Seq::<Seq<char>>::empty());
    } else if toks.len() == 1 {
        let t = toks[0];
        assert(plain_token(t));
        lemma_split_single(t);
        lemma_trimmed_plain(t);
        assert(seq![t].drop_last() =~= Seq::<Seq<char>>::empty());
        assert(seq![t].last() == t);
        assert(kept_tokens(Seq::<Seq<char>>::empty()) == Seq::<Seq<char>>::empty());
        assert(kept_tokens(seq![t]) =~= seq![t]);
        assert(join_commas(toks) == t);
        assert(toks =~= seq![t]);
    } else {
        let t = toks[0];
        assert(plain_token(t));
        lemma_join_front(toks);
        lemma_split_front(t, join_commas(toks.drop_first()));
        lemma_join_reads_back(toks.drop_first());
        lemma_kept_concat(seq![t], split_on(join_commas(toks.drop_first()), ',', 0, 0));
        lemma_trimmed_plain(t);
        assert(seq![t].drop_last() =~= Seq::<Seq<char>>::empty());
        assert(seq![t].last() == t);
        assert(kept_tokens(Seq::<Seq<char>>::empty()) == Seq::<Seq<char>>::empty());
        assert(kept_tokens(seq![t]) =~= seq![t]);
        assert(seq![t] + toks.drop_first() =~= toks);
        assert(split_on(join_commas(toks), ',', 0, 0) == seq![t] + split_on(
            join_commas(toks.drop_first()),
            ',',
            0,
            0,
        ));
    }
}

// ---------- finding the arrays ----------

proof fn lemma_leftmost_is(h: Seq<char>, n: Seq<char>, from: int, k: int)
    requires
        0 <= from <= k,
        n.len() > 0,
        occurs_in(h, n, k),
        forall|p: int| from <= p < k ==> !occurs_in(h, n, p),
    ensures
        leftmost(h, n, from) == k,
    decreases k - from,
{
    if from < k {
        lemma_leftmost_is(h, n, from + 1, k);
    }
}

/// The single character `c` first occurs at `k`.
proof fn lemma_leftmost_char(h: Seq<char>, c: char, from: int, k: int)
    requires
        0 <= from <= k < h.len(),
        h[k] == c,
        forall|p: int| from <= p < k ==> h[p] != c,
    ensures
        leftmost(h, seq![c], from) == k,
{
    assert(h.subrange(k, k + 1) =~= seq![c]);
    assert forall|p: int| from <= p < k implies !occurs_in(h, seq![c], p) by {
        if occurs_in(h, seq![c], p) {
            assert(h.subrange(p, p + 1)[0] == h[p]);
        }
    }
    lemma_leftmost_is(h, seq![c], from, k);
}

/// The array after the first `"key"`: when the document is `a`, then
/// `"key":[`, then a body without `]`, then `]`, and no `"key"` starts inside
/// `a`, the array's span is that body.
proof fn lemma_array_after(doc: Seq<char>, a: Seq<char>, key: Seq<char>, body: Seq<char>, rest: Seq<char>)
    requires
        doc == a + (seq!['"'] + key + seq!['"']) + seq![':', '['] + body + seq![']'] + rest,
        forall|p: int| 0 <= p < a.len() ==> !occurs_in(doc, seq!['"'] + key + seq!['"'], p),
        forall|i: int| 0 <= i < body.len() ==> body[i] != ']',
    ensures
        array_span(doc, key) == Some(
            (a.len() + key.len() + 4 as int, a.len() + key.len() + 4 + body.len() as int),
        ),
        doc.subrange(a.len() + key.len() + 4 as int, a.len() + key.len() + 4 + body.len() as int) == body,
{
    let needle = seq!['"'] + key + seq!['"'];
    let k = a.len() as int;
    let o: int = k + needle.len();
    assert(doc.subrange(k, k + needle.len()) =~= needle);
    lemma_leftmost_is(doc, needle, 0, k);
    assert(doc[o] == ':');
    assert(doc[o + 1] == '[');
    lemma_leftmost_char(doc, '[', o, o + 1);
    let c: int = o + 2 + body.len();
    assert(doc[c] == ']');
    assert forall|p: int| o + 2 <= p < c implies doc[p] != ']' by {
        assert(doc[p] == body[p - o - 2]);
    }
    lemma_leftmost_char(doc, ']', o + 2, c);
    assert(doc.subrange(o + 2, c) =~= body);
}

proof fn lemma_escaped_no_quote(n: Seq<char>)
    requires
        forall|i: int| 0 <= i < n.len() ==> n[i] != '"',
    ensures
        forall|i: int| 0 <= i < json_escaped(n).len() ==> json_escaped(n)[i] != '"',
    decreases n.len(),
{
    if n.len() > 0 {
        lemma_escaped_no_quote(n.drop_last());
        let e = json_escaped(n);
        let e0 = json_escaped(n.drop_last());
        let c = json_escape_char(n.last());
        assert(e == e0 + c);
        assert(n.last() != '"');
        assert forall|i: int| 0 <= i < e.len() implies e[i] != '"' by {
            if i >= e0.len() {
                assert(e[i] == c[i - e0.len()]);
            }
        }
    }
}

/// No quoted key starts inside a stretch `[lo, hi)` that holds no quote.
proof fn lemma_no_key_in(doc: Seq<char>, needle: Seq<char>, lo: int, hi: int)
    requires
        needle.len() > 0,
        needle[0] == '"',
        forall|p: int| lo <= p < hi ==> doc[p] != '"',
    ensures
        forall|p: int| lo <= p < hi ==> !occurs_in(doc, needle, p),
{
    assert forall|p: int| lo <= p < hi implies !occurs_in(doc, needle, p) by {
        if occurs_in(doc, needle, p) {
            assert(doc.subrange(p, p + needle.len())[0] == doc[p]);
        }
    }
}

/// No quoted key starts at `p` when the character after `p` differs from
/// the key's first letter.
proof fn lemma_no_key_at(doc: Seq<char>, needle: Seq<char>, p: int)
    requires
        needle.len() > 1,
        0 <= p,
        p + 1 < doc.len(),
        doc[p + 1] != needle[1],
    ensures
        !occurs_in(doc, needle, p),
{
    if occurs_in(doc, needle, p) {
        assert(doc.subrange(p, p + needle.len())[1] == doc[p + 1]);
    }
}

/// No quoted key starts at the opening quote of a quoted name whose escaped
/// text has no quote and differs from the key.
proof fn lemma_no_key_at_name(doc: Seq<char>, key: Seq<char>, e: Seq<char>, q: int)
    requires
        key.len() > 0,
        forall|i: int| 0 <= i < key.len() ==> key[i] != '"',
        forall|i: int| 0 <= i < e.len() ==> e[i] != '"',
        e != key,
        0 <= q,
        q + e.len() + 2 <= doc.len(),
        doc.subrange(q, q + e.len() + 2) == seq!['"'] + e + seq!['"'],
    ensures
        !occurs_in(doc, seq!['"'] + key + seq!['"'], q),
{
    let needle = seq!['"'] + key + seq!['"'];
    if occurs_in(doc, needle, q) {
        let w = doc.subrange(q, q + needle.len());
        assert(w == needle);
        let v = doc.subrange(q, q + e.len() + 2);
        if e.len() == key.len() {
            assert(e =~= key) by {
                assert forall|i: int| 0 <= i < e.len() implies e[i] == key[i] by {
                    assert(v[i + 1] == e[i]);
                    assert(doc[q + i + 1] == v[i + 1]);
                    assert(w[i + 1] == doc[q + i + 1]);
                    assert(needle[i + 1] == key[i]);
                }
            }
        } else if e.len() > key.len() {
            let j: int = key.len() as int + 1;
            assert(needle[j] == '"');
            assert(w[j] == doc[q + j]);
            assert(v[j] == doc[q + j]);
            assert(v[j] == e[j - 1]);
        } else {
            let j: int = e.len() as int + 1;
            assert(v[j] == '"');
            assert(v[j] == doc[q + j]);
            assert(w[j] == doc[q + j]);
            assert(needle[j] == key[j - 1]);
        }
    }
}

// ---------- the document read back ----------

/// The `"timestamps"` key, without its quotes.
pub open spec fn ts_key() -> Seq<char> {
    seq!['t', 'i', 'm', 'e', 's', 't', 'a', 'm', 'p', 's']
}

/// The `"values"` key, without its quotes.
pub open spec fn values_key() -> Seq<char> {
    seq!['v', 'a', 'l', 'u', 'e', 's']
}

/// A series name the reader cannot mistake for a key: it holds no quote,
/// and its escaped text is neither `timestamps` nor `values`.
pub open spec fn plain_name(name: Option<Seq<char>>) -> bool {
    match name {
        None => true,
        Some(n) => {
            &&& forall|i: int| 0 <= i < n.len() ==> n[i] != '"'
            &&& json_escaped(n) != ts_key()
            &&& json_escaped(n) != values_key()
        },
    }
}

/// The timestamp tokens the encoder writes for `ts` in `style`.
pub open spec fn ts_tokens(style: TsTimestampStyle, ts: Seq<i64>) -> Seq<Seq<char>> {
    ts.map_values(|t: i64| ts_text(style, t))
}

/// The number a timestamp token stands for under a decodable style.
pub open spec fn read_ts(style: TsTimestampStyle, t: i64) -> int {
    match style {
        TsTimestampStyle::EpochMillis => div_trunc(t as int, 1_000_000),
        _ => t as int,
    }
}

proof fn lemma_join_lacks(toks: Seq<Seq<char>>, c: char)
    requires
        c != ',',
        forall|i: int, j: int| 0 <= i < toks.len() && 0 <= j < toks[i].len() ==> toks[i][j] != c,
    ensures
        forall|j: int| 0 <= j < join_commas(toks).len() ==> join_commas(toks)[j] != c,
    decreases toks.len(),
{
    if toks.len() == 1 {
        assert(join_commas(toks) == toks[0]);
    } else if toks.len() > 1 {
        lemma_join_lacks(toks.drop_last(), c);
        let a = join_commas(toks.drop_last());
        let l = toks.last();
        assert(join_commas(toks) == a + seq![','] + l);
        assert forall|j: int| 0 <= j < join_commas(toks).len() implies join_commas(toks)[j] != c by {
            if j > a.len() {
                assert(join_commas(toks)[j] == l[j - a.len() - 1]);
                assert(l == toks[toks.len() - 1]);
            } else if j < a.len() {
                assert(join_commas(toks)[j] == a[j]);
            }
        }
    }
}

proof fn lemma_ts_tokens(style: TsTimestampStyle, ts: Seq<i64>)
    requires
        !(style is Iso8601),
    ensures
        forall|i: int|
            0 <= i < ts.len() ==> number_token(#[trigger] ts_tokens(style, ts)[i])
                && i64_text(ts_tokens(style, ts)[i]) == Some(
                read_ts(style, ts[i]) as i64,
            ),
{
    assert forall|i: int| 0 <= i < ts.len() implies number_token(
        #[trigger] ts_tokens(style, ts)[i],
    ) && i64_text(ts_tokens(style, ts)[i]) == Some(
        read_ts(style, ts[i]) as i64,
    ) by {
        let t = ts[i] as int;
        let v = read_ts(style, ts[i]);
        if style is EpochMillis {
            if t >= 0 {
                assert(0 <= t / 1_000_000 <= t) by (nonlinear_arith)
                    requires
                        t >= 0,
                ;
            } else {
                assert(0 <= (-t) / 1_000_000 <= -t) by (nonlinear_arith)
                    requires
                        t < 0,
                ;
            }
        }
        assert(i64::MIN <= v <= i64::MAX);
        lemma_dec_int_reads_back(v);
    }
}

pub open spec fn doc_nl(pretty: bool) -> Seq<char> {
    if pretty {
        seq!['\n']
    } else {
        Seq::<char>::empty()
    }
}

pub open spec fn doc_sp(pretty: bool) -> Seq<char> {
    if pretty {
        seq![' ', ' ']
    } else {
        Seq::<char>::empty()
    }
}

/// The document up to the timestamps column.
pub open spec fn doc_head(pretty: bool, name: Option<Seq<char>>) -> Seq<char> {
    seq!['{'] + doc_nl(pretty) + match name {
        Some(n) => doc_sp(pretty) + seq!['"', 'n', 'a', 'm', 'e', '"', ':'] + json_quoted(n) + seq![
            ',',
        ] + doc_nl(pretty),
        None => Seq::<char>::empty(),
    } + doc_sp(pretty)
}

proof fn lemma_doc_shape(pretty: bool, name: Option<Seq<char>>, toks: Seq<Seq<char>>, vals: Seq<Seq<char>>)
    ensures
        json_doc(pretty, name, toks, vals) == doc_head(pretty, name) + (seq!['"'] + ts_key()
            + seq!['"']) + seq![':', '['] + join_commas(toks) + (seq![']', ','] + doc_nl(pretty)
            + doc_sp(pretty)) + ((seq!['"'] + values_key() + seq!['"']) + seq![':', '[']
            + join_commas(vals) + seq![']'] + (doc_nl(pretty) + seq!['}'])),
        json_doc(pretty, name, toks, vals) == (doc_head(pretty, name) + (seq!['"'] + ts_key()
            + seq!['"']) + seq![':', '['] + join_commas(toks) + (seq![']', ','] + doc_nl(pretty)
            + doc_sp(pretty))) + (seq!['"'] + values_key() + seq!['"']) + seq![':', '[']
            + join_commas(vals) + seq![']'] + (doc_nl(pretty) + seq!['}']),
        json_doc(pretty, name, toks, vals) == doc_head(pretty, name) + (seq!['"'] + ts_key()
            + seq!['"']) + seq![':', '['] + join_commas(toks) + seq![']'] + (seq![','] + doc_nl(
            pretty,
        ) + doc_sp(pretty) + (seq!['"'] + values_key() + seq!['"']) + seq![':', '[']
            + join_commas(vals) + seq![']'] + (doc_nl(pretty) + seq!['}'])),
{
    let doc = json_doc(pretty, name, toks, vals);
    let h = doc_head(pretty, name);
    let n1 = seq!['"'] + ts_key() + seq!['"'];
    let n2 = seq!['"'] + values_key() + seq!['"'];
    let j1 = join_commas(toks);
    let j2 = join_commas(vals);
    let nl = doc_nl(pretty);
    let sp = doc_sp(pretty);
    assert(doc =~= h + n1 + seq![':', '['] + j1 + (seq![']', ','] + nl + sp) + (n2 + seq![':', '[']
        + j2 + seq![']'] + (nl + seq!['}'])));
    assert(doc =~= (h + n1 + seq![':', '['] + j1 + (seq![']', ','] + nl + sp)) + n2 + seq![':', '[']
        + j2 + seq![']'] + (nl + seq!['}']));
    assert(doc =~= h + n1 + seq![':', '['] + j1 + seq![']'] + (seq![','] + nl + sp + n2 + seq![
        ':',
        '[',
    ] + j2 + seq![']'] + (nl + seq!['}'])));
}

/// The timestamp tokens are plain and free of quotes and brackets.
proof fn lemma_ts_join(style: TsTimestampStyle, ts: Seq<i64>)
    requires
        !(style is Iso8601),
    ensures
        forall|i: int| 0 <= i < ts.len() ==> plain_token(#[trigger] ts_tokens(style, ts)[i]),
        forall|j: int|
            0 <= j < join_commas(ts_tokens(style, ts)).len() ==> join_commas(ts_tokens(style, ts))[j]
                != ']' && join_commas(ts_tokens(style, ts))[j] != '"',
{
    let toks = ts_tokens(style, ts);
    lemma_ts_tokens(style, ts);
    assert forall|i: int| 0 <= i < toks.len() implies plain_token(#[trigger] toks[i]) by {
        lemma_number_token_plain(toks[i]);
    }
    assert forall|i: int, j: int| 0 <= i < toks.len() && 0 <= j < toks[i].len() implies toks[i][j]
        != ']' && toks[i][j] != '"' by {
        assert(number_token(toks[i]));
    }
    lemma_join_lacks(toks, ']');
    lemma_join_lacks(toks, '"');
}

/// Both arrays of a document of the encoder's shape.
#[verifier::rlimit(40)]
proof fn lemma_arrays_of_shape(
    doc: Seq<char>,
    pretty: bool,
    name: Option<Seq<char>>,
    toks: Seq<Seq<char>>,
    vals: Seq<Seq<char>>,
)
    requires
        plain_name(name),
        forall|i: int| 0 <= i < toks.len() ==> plain_token(#[trigger] toks[i]),
        forall|i: int| 0 <= i < vals.len() ==> plain_token(#[trigger] vals[i]),
        forall|j: int|
            0 <= j < join_commas(toks).len() ==> join_commas(toks)[j] != ']' && join_commas(toks)[j]
                != '"',
        forall|j: int| 0 <= j < join_commas(vals).len() ==> join_commas(vals)[j] != ']',
        doc == doc_head(pretty, name) + (seq!['"'] + ts_key() + seq!['"']) + seq![':', '[']
            + join_commas(toks) + (seq![']', ','] + doc_nl(pretty) + doc_sp(pretty)) + ((seq!['"']
            + values_key() + seq!['"']) + seq![':', '['] + join_commas(vals) + seq![']'] + (doc_nl(
            pretty,
        ) + seq!['}'])),
        doc == (doc_head(pretty, name) + (seq!['"'] + ts_key() + seq!['"']) + seq![':', '[']
            + join_commas(toks) + (seq![']', ','] + doc_nl(pretty) + doc_sp(pretty))) + (seq!['"']
            + values_key() + seq!['"']) + seq![':', '['] + join_commas(vals) + seq![']'] + (doc_nl(
            pretty,
        ) + seq!['}']),
        doc == doc_head(pretty, name) + (seq!['"'] + ts_key() + seq!['"']) + seq![':', '[']
            + join_commas(toks) + seq![']'] + (seq![','] + doc_nl(pretty) + doc_sp(pretty) + (
        seq!['"'] + values_key() + seq!['"']) + seq![':', '['] + join_commas(vals) + seq![']'] + (
        doc_nl(pretty) + seq!['}'])),
    ensures
        array_tokens_of(doc, ts_key()) == Some(toks),
        array_tokens_of(doc, values_key()) == Some(vals),
{
    let j1 = join_commas(toks);
    let j2 = join_commas(vals);
    let nl = doc_nl(pretty);
    let sp = doc_sp(pretty);
    let a1 = doc_head(pretty, name);
    let n2 = seq!['"'] + values_key() + seq!['"'];
    let tail = seq![']', ','] + nl + sp;
    let r1 = seq![','] + nl + sp + n2 + seq![':', '['] + j2 + seq![']'] + (nl + seq!['}']);
    let a2 = a1 + (seq!['"'] + ts_key() + seq!['"']) + seq![':', '['] + j1 + tail;
    let r2 = nl + seq!['}'];
    assert(doc.subrange(0, a1.len() as int) =~= a1);
    lemma_prefix_has_no_key(doc, a1, nl, sp, name, ts_key());
    lemma_prefix_has_no_key(doc, a1, nl, sp, name, values_key());
    assert(forall|i: int| 0 <= i < tail.len() ==> tail[i] != '"');
    lemma_middle_has_no_values_key(doc, a1, j1, tail, n2 + seq![':', '['] + j2 + seq![']'] + r2);
    lemma_array_after(doc, a1, ts_key(), j1, r1);
    lemma_array_after(doc, a2, values_key(), j2, r2);
    lemma_join_reads_back(toks);
    lemma_join_reads_back(vals);
}

/// What the encoder writes reads back: in a document of timestamp tokens
/// (nanosecond or millisecond style) and plain value tokens, under a name
/// the reader cannot mistake for a key, the `"timestamps"` array holds the
/// timestamp tokens, each reading back as the number it renders, and the
/// `"values"` array holds the value tokens.
pub proof fn lemma_document_round_trip(
    pretty: bool,
    name: Option<Seq<char>>,
    style: TsTimestampStyle,
    ts: Seq<i64>,
    vals: Seq<Seq<char>>,
)
    requires
        !(style is Iso8601),
        plain_name(name),
        forall|i: int| 0 <= i < vals.len() ==> plain_token(#[trigger] vals[i]),
    ensures
        array_tokens_of(json_doc(pretty, name, ts_tokens(style, ts), vals), ts_key()) == Some(
            ts_tokens(style, ts),
        ),
        forall|i: int|
            0 <= i < ts.len() ==> i64_text(#[trigger] ts_tokens(style, ts)[i]) == Some(
                read_ts(style, ts[i]) as i64,
            ),
        array_tokens_of(json_doc(pretty, name, ts_tokens(style, ts), vals), values_key()) == Some(
            vals,
        ),
{
    let toks = ts_tokens(style, ts);
    lemma_ts_tokens(style, ts);
    lemma_ts_join(style, ts);
    assert forall|i: int, j: int| 0 <= i < vals.len() && 0 <= j < vals[i].len() implies vals[i][j]
        != ']' by {
        assert(plain_token(vals[i]));
    }
    lemma_join_lacks(vals, ']');
    lemma_doc_shape(pretty, name, toks, vals);
    lemma_arrays_of_shape(json_doc(pretty, name, toks, vals), pretty, name, toks, vals);
}

/// No quoted key starts inside the part of the document before the
/// timestamps column.
#[verifier::rlimit(40)]
proof fn lemma_prefix_has_no_key(
    doc: Seq<char>,
    a1: Seq<char>,
    nl: Seq<char>,
    sp: Seq<char>,
    name: Option<Seq<char>>,
    key: Seq<char>,
)
    requires
        key == ts_key() || key == values_key(),
        plain_name(name),
        nl == seq!['\n'] || nl == Seq::<char>::empty(),
        sp == seq![' ', ' '] || sp == Seq::<char>::empty(),
        a1 == seq!['{'] + nl + match name {
            Some(n) => sp + seq!['"', 'n', 'a', 'm', 'e', '"', ':'] + json_quoted(n) + seq![','] + nl,
            None => Seq::<char>::empty(),
        } + sp,
        a1.len() < doc.len(),
        doc.subrange(0, a1.len() as int) == a1,
    ensures
        forall|p: int| 0 <= p < a1.len() ==> !occurs_in(doc, seq!['"'] + key + seq!['"'], p),
{
    let needle = seq!['"'] + key + seq!['"'];
    assert forall|p: int| 0 <= p < a1.len() implies doc[p] == #[trigger] a1[p] by {
        assert(doc.subrange(0, a1.len() as int)[p] == doc[p]);
    }
    assert(needle[1] == 't' || needle[1] == 'v');
    let pre = seq!['{'] + nl + sp;
    assert(forall|p: int| 0 <= p < pre.len() ==> pre[p] != '"');
    match name {
        None => {
            assert(a1 =~= pre);
            assert forall|p: int| 0 <= p < a1.len() implies doc[p] != '"' by {
                assert(doc[p] == a1[p]);
            }
            lemma_no_key_in(doc, needle, 0, a1.len() as int);
        },
        Some(n) => {
            let e = json_escaped(n);
            lemma_escaped_no_quote(n);
            let nk = seq!['"', 'n', 'a', 'm', 'e', '"', ':'];
            let q = seq!['"'] + e + seq!['"'];
            let post = seq![','] + nl + sp;
            let ab = pre + nk;
            let abc = ab + q;
            assert(a1 =~= abc + post);
            let b: int = pre.len() as int;
            let qc: int = b + 7;
            let qd: int = qc + e.len() + 1;
            assert(forall|p: int| 0 <= p < q.len() ==> q[p] != '"' || p == 0 || p == q.len() - 1);
            assert(forall|p: int| 0 <= p < post.len() ==> post[p] != '"');
            assert forall|p: int|
                0 <= p < a1.len() && p != b && p != b + 5 && p != qc && p != qd implies doc[p]
                != '"' by {
                assert(doc[p] == a1[p]);
                if p < abc.len() {
                    assert(a1[p] == abc[p]);
                    if p < ab.len() {
                        assert(abc[p] == ab[p]);
                        if p < b {
                            assert(ab[p] == pre[p]);
                        } else {
                            assert(ab[p] == nk[p - b]);
                        }
                    } else {
                        assert(abc[p] == q[p - ab.len()]);
                    }
                } else {
                    assert(a1[p] == post[p - abc.len()]);
                }
            }
            assert(doc[b + 1] == a1[b + 1] && a1[b + 1] == abc[b + 1] && abc[b + 1] == ab[b + 1]
                && ab[b + 1] == nk[1]);
            lemma_no_key_at(doc, needle, b);
            assert(doc[b + 6] == a1[b + 6] && a1[b + 6] == abc[b + 6] && abc[b + 6] == ab[b + 6]
                && ab[b + 6] == nk[6]);
            lemma_no_key_at(doc, needle, b + 5);
            assert(doc[qd + 1] == a1[qd + 1] && a1[qd + 1] == post[0]);
            lemma_no_key_at(doc, needle, qd);
            assert(doc.subrange(qc, qc + e.len() + 2int) =~= q) by {
                assert forall|i: int| 0 <= i < e.len() + 2 implies doc.subrange(
                    qc,
                    qc + e.len() + 2int,
                )[i] == q[i] by {
                    assert(doc[qc + i] == a1[qc + i]);
                    assert(a1[qc + i] == abc[qc + i]);
                    assert(abc[qc + i] == q[i]);
                }
            }
            lemma_no_key_at_name(doc, key, e, qc);
            assert forall|p: int| 0 <= p < a1.len() implies !occurs_in(doc, needle, p) by {
                if p != b && p != b + 5 && p != qc && p != qd {
                    lemma_no_key_in(doc, needle, p, p + 1);
                }
            }
        },
    }
}

/// No `"values"` key starts between the start of the timestamps column and
/// the values column.
#[verifier::rlimit(40)]
proof fn lemma_middle_has_no_values_key(doc: Seq<char>, a1: Seq<char>, j1: Seq<char>, tail: Seq<char>, rest: Seq<char>)
    requires
        doc == a1 + (seq!['"'] + ts_key() + seq!['"']) + seq![':', '['] + j1 + tail + rest,
        forall|i: int| 0 <= i < j1.len() ==> j1[i] != '"',
        forall|i: int| 0 <= i < tail.len() ==> tail[i] != '"',
    ensures
        forall|p: int|
            a1.len() <= p < a1.len() + 14 + j1.len() + tail.len() ==> !occurs_in(
                doc,
                seq!['"'] + values_key() + seq!['"'],
                p,
            ),
{
    let n1 = seq!['"'] + ts_key() + seq!['"'];
    let n2 = seq!['"'] + values_key() + seq!['"'];
    let head = n1 + seq![':', '['];
    let mid = head + j1 + tail;
    assert(doc =~= a1 + mid + rest);
    let k: int = a1.len() as int;
    assert forall|p: int| k <= p < k + mid.len() implies !occurs_in(doc, n2, p) by {
        assert(doc[p] == mid[p - k]);
        if p == k {
            assert(doc[k + 1] == mid[1] && mid[1] == head[1] && head[1] == 't');
            lemma_no_key_at(doc, n2, p);
        } else if p == k + 11 {
            assert(doc[k + 12] == mid[12] && mid[12] == head[12] && head[12] == ':');
            lemma_no_key_at(doc, n2, p);
        } else {
            let i = p - k;
            if i < 14 {
                assert(mid[i] == head[i]);
            } else if i < 14 + j1.len() {
                assert(mid[i] == j1[i - 14]);
            } else {
                assert(mid[i] == tail[i - 14 - j1.len()]);
            }
            lemma_no_key_in(doc, n2, p, p + 1);
        }
    }
}

} // verus!
