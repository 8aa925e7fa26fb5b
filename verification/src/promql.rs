//! The PromQL subset's front end: label matchers, the anchored `.*` pattern
//! matcher, duration literals, and the query lexer + recursive-descent
//! parser. Anything outside the subset surfaces as [`TsPromQlError::Parse`].

use vstd::prelude::*;

use crate::text::{push_text, string_from_chars};

verus! {

/// What can go wrong: a malformed query is a [`TsPromQlError::Parse`]; a
/// query that parses but cannot be evaluated as written is a
/// [`TsPromQlError::Eval`].
#[derive(Clone, Debug, PartialEq, Eq)]
pub enum TsPromQlError {
    Parse(String),
    Eval(String),
}

/// The text shown for a query error.
pub open spec fn promql_error_text(e: TsPromQlError) -> Seq<char> {
    match e {
        TsPromQlError::Parse(m) => "promql parse error: "@ + m@,
        TsPromQlError::Eval(m) => "promql eval error: "@ + m@,
    }
}

impl TsPromQlError {
    /// The error's text: which stage failed, and why.
    pub fn message(&self) -> (m: String)
        ensures
            m@ == promql_error_text(*self),
    {
        match self {
            TsPromQlError::Parse(why) => {
                let mut m = "promql parse error: ".to_owned();
                push_text(&mut m, why.as_str());
                m
            },
            TsPromQlError::Eval(why) => {
                let mut m = "promql eval error: ".to_owned();
                push_text(&mut m, why.as_str());
                m
            },
        }
    }
}

/// How a label matcher compares against a series' tag value.
#[derive(Clone, Copy, Debug, PartialEq, Eq)]
pub enum MatchOp {
    /// `label="v"` - exact equality.
    Eq,
    /// `label!="v"` - exact inequality.
    Ne,
    /// `label=~"re"` - pattern match (literal + `.*` only, anchored).
    Re,
    /// `label!~"re"` - negated pattern match.
    Nre,
}

/// One `name<op>"value"` label matcher inside a selector's `{...}`.
#[derive(Clone, Debug, PartialEq, Eq)]
pub struct LabelMatcher {
    pub label: String,
    pub op: MatchOp,
    pub pattern: String,
}

/// Cross-series grouping for an aggregation.
#[derive(Clone, Debug, PartialEq, Eq)]
pub enum Grouping {
    /// No `by`/`without`: collapse everything into a single group.
    All,
    /// `by (a, b)` - group by exactly these labels.
    By(Vec<String>),
    /// `without (a, b)` - group by every label except these.
    Without(Vec<String>),
}

#[derive(Clone, Copy, Debug, PartialEq, Eq)]
pub enum AggOp {
    Sum,
    Avg,
    Min,
    Max,
    Count,
}

#[derive(Clone, Copy, Debug, PartialEq, Eq)]
pub enum FuncKind {
    Rate,
    Irate,
    Increase,
}

#[derive(Clone, Copy, Debug, PartialEq, Eq)]
pub enum BinOp {
    Add,
    Sub,
    Mul,
    Div,
}

/// An instant-vector selector: metric name, label matchers, offset.
#[derive(Clone, Debug, PartialEq, Eq)]
pub struct Selector {
    pub metric: String,
    pub matchers: Vec<LabelMatcher>,
    pub offset_ns: i64,
}

// ---------- the anchored `.*` pattern ----------

/// A `.*` wildcard starts at byte `i`.
pub open spec fn sep_at(p: Seq<u8>, i: int) -> bool {
    0 <= i && i + 1 < p.len() && p[i] == 46u8 && p[i + 1] == 42u8
}

/// The fragments of `p` from a fragment starting at `start`, scanning from
/// `i`: `p` split on every `.*`, left to right.
pub open spec fn split_scan(p: Seq<u8>, start: int, i: int) -> Seq<Seq<u8>>
    decreases p.len() - i,
{
    if i >= p.len() {
        seq![p.subrange(start, p.len() as int)]
    } else if sep_at(p, i) {
        seq![p.subrange(start, i)] + split_scan(p, i + 2, i + 2)
    } else {
        split_scan(p, start, i + 1)
    }
}

/// `p` split on `.*` (there is always at least one fragment).
pub open spec fn split_wild(p: Seq<u8>) -> Seq<Seq<u8>> {
    split_scan(p, 0, 0)
}

/// `q` occurs in `v` at byte `k`.
pub open spec fn occurs_at(v: Seq<u8>, q: Seq<u8>, k: int) -> bool {
    0 <= k && k + q.len() <= v.len() && v.subrange(k, k + q.len()) == q
}

/// `v` holds the fragments in order, each after a gap of any length, the
/// last one ending `v`.
pub open spec fn gaps_match(parts: Seq<Seq<u8>>, v: Seq<u8>) -> bool
    decreases parts.len(),
{
    if parts.len() == 0 {
        true
    } else if parts.len() == 1 {
        v.len() >= parts[0].len() && v.skip(v.len() - parts[0].len()) == parts[0]
    } else {
        exists|k: int|
            #[trigger] occurs_at(v, parts[0], k) && gaps_match(
                parts.drop_first(),
                v.skip(k + parts[0].len()),
            )
    }
}

/// Whole-value match of a pattern whose only metacharacter is `.*` (any
/// run of bytes); every other byte is literal. Without a `.*` the pattern
/// must equal the value.
pub open spec fn wild_match(pattern: Seq<u8>, v: Seq<u8>) -> bool {
    let parts = split_wild(pattern);
    if parts.len() == 1 {
        v == pattern
    } else {
        v.len() >= parts[0].len() && v.take(parts[0].len() as int) == parts[0] && gaps_match(
            parts.drop_first(),
            v.skip(parts[0].len() as int),
        )
    }
}

proof fn lemma_split_scan_nonempty(p: Seq<u8>, start: int, i: int)
    ensures
        split_scan(p, start, i).len() >= 1,
    decreases p.len() - i,
{
    if i < p.len() {
        if sep_at(p, i) {
            lemma_split_scan_nonempty(p, i + 2, i + 2);
        } else {
            lemma_split_scan_nonempty(p, start, i + 1);
        }
    }
}

/// A gap in front never hurts: a match of `u` is a match of `x + u`.
proof fn lemma_gaps_prepend(parts: Seq<Seq<u8>>, u: Seq<u8>, x: Seq<u8>)
    requires
        gaps_match(parts, u),
    ensures
        gaps_match(parts, x + u),
    decreases parts.len(),
{
    let w = x + u;
    if parts.len() == 1 {
        assert(w.skip(w.len() - parts[0].len()) =~= u.skip(u.len() - parts[0].len()));
    } else if parts.len() >= 2 {
        let q = parts[0];
        let k = choose|k: int|
            #[trigger] occurs_at(u, q, k) && gaps_match(parts.drop_first(), u.skip(k + q.len()));
        let k2 = k + x.len();
        assert(w.subrange(k2, k2 + q.len()) =~= u.subrange(k, k + q.len()));
        assert(w.skip(k2 + q.len()) =~= u.skip(k + q.len()));
        assert(occurs_at(w, q, k2));
    }
}

/// Leftmost placement is enough: when `q` first occurs in `w` at `k0`, the
/// fragments match `w` exactly when the rest matches after that occurrence.
proof fn lemma_gaps_leftmost(parts: Seq<Seq<u8>>, w: Seq<u8>, k0: int)
    requires
        parts.len() >= 2,
        0 <= k0 && k0 + parts[0].len() <= w.len(),
        occurs_at(w, parts[0], k0),
        forall|k: int| 0 <= k < k0 ==> !#[trigger] occurs_at(w, parts[0], k),
    ensures
        gaps_match(parts, w) == gaps_match(parts.drop_first(), w.skip(k0 + parts[0].len())),
{
    let q = parts[0];
    if gaps_match(parts, w) {
        let k = choose|k: int|
            #[trigger] occurs_at(w, q, k) && gaps_match(parts.drop_first(), w.skip(k + q.len()));
        assert(k >= k0);
        let x = w.subrange(k0 + q.len(), k + q.len());
        assert(w.skip(k0 + q.len()) =~= x + w.skip(k + q.len()));
        lemma_gaps_prepend(parts.drop_first(), w.skip(k + q.len()), x);
    }
}

/// Does `a[a0 .. a0 + len]` equal `b[b0 .. b0 + len]`?
fn bytes_eq_at(a: &[u8], a0: usize, b: &[u8], b0: usize, len: usize) -> (r: bool)
    requires
        a0 + len <= a@.len(),
        b0 + len <= b@.len(),
    ensures
        r == (a@.subrange(a0 as int, a0 + len) == b@.subrange(b0 as int, b0 + len)),
{
    let _alen = a.len();
    let _blen = b.len();
    let mut k: usize = 0;
    while k < len
        invariant
            k <= len,
            a0 + len <= a@.len(),
            a@.len() <= usize::MAX,
            b@.len() <= usize::MAX,
            b0 + len <= b@.len(),
            a@.subrange(a0 as int, a0 + k) == b@.subrange(b0 as int, b0 + k),
        decreases len - k,
    {
        if a[a0 + k] != b[b0 + k] {
            assert(a@.subrange(a0 as int, a0 + len)[k as int] != b@.subrange(b0 as int, b0 + len)[k as int]);
            return false;
        }
        assert(a@.subrange(a0 as int, a0 + k + 1) =~= a@.subrange(a0 as int, a0 + k).push(a@[a0 + k]));
        assert(b@.subrange(b0 as int, b0 + k + 1) =~= b@.subrange(b0 as int, b0 + k).push(b@[b0 + k]));
        k = k + 1;
    }
    true
}

/// The `.*`-separated fragments of `p`, as byte ranges.
fn split_ranges(p: &[u8]) -> (r: Vec<(usize, usize)>)
    ensures
        r@.len() >= 1,
        forall|j: int| 0 <= j < r@.len() ==> (#[trigger] r@[j]).0 <= r@[j].1 <= p@.len(),
        r@.map_values(|x: (usize, usize)| p@.subrange(x.0 as int, x.1 as int)) == split_wild(p@),
{
    let n = p.len();
    let mut r: Vec<(usize, usize)> = Vec::new();
    let mut start: usize = 0;
    let mut i: usize = 0;
    while i < n
        invariant
            n == p@.len(),
            start <= i <= n,
            forall|j: int| 0 <= j < r@.len() ==> (#[trigger] r@[j]).0 <= r@[j].1 <= p@.len(),
            r@.map_values(|x: (usize, usize)| p@.subrange(x.0 as int, x.1 as int)) + split_scan(
                p@,
                start as int,
                i as int,
            ) == split_wild(p@),
        decreases n - i,
    {
        if i + 1 < n && p[i] == 46u8 && p[i + 1] == 42u8 {
            let ghost before = r@;
            r.push((start, i));
            proof {
                let f = |x: (usize, usize)| p@.subrange(x.0 as int, x.1 as int);
                assert(r@.map_values(f) =~= before.map_values(f).push(p@.subrange(start as int, i as int)));
                assert(split_scan(p@, start as int, i as int) == seq![p@.subrange(start as int, i as int)]
                    + split_scan(p@, i + 2, i + 2));
                assert(before.map_values(f) + split_scan(p@, start as int, i as int) =~= r@.map_values(f)
                    + split_scan(p@, i + 2, i + 2));
            }
            i = i + 2;
            start = i;
        } else {
            i = i + 1;
        }
    }
    let ghost before = r@;
    r.push((start, n));
    proof {
        let f = |x: (usize, usize)| p@.subrange(x.0 as int, x.1 as int);
        assert(r@.map_values(f) =~= before.map_values(f).push(p@.subrange(start as int, n as int)));
        assert(before.map_values(f) + split_scan(p@, start as int, i as int) =~= r@.map_values(f));
    }
    r
}

/// Anchored simple-pattern match. The only metacharacter honoured is `.*`
/// (any run of characters); every other byte is a literal, `.` on its own
/// included. Matching is whole-string anchored, as PromQL's `=~` is.
pub fn simple_re_match(pattern: &str, value: &str) -> (b: bool)
    ensures
        b == wild_match(vstd::utf8::encode_utf8(pattern@), vstd::utf8::encode_utf8(value@)),
{
    let p = pattern.as_bytes();
    let v = value.as_bytes();
    let ranges = split_ranges(p);
    let ghost parts = split_wild(p@);
    let ghost f = |x: (usize, usize)| p@.subrange(x.0 as int, x.1 as int);
    proof {
        assert(parts.len() == ranges@.len());
        assert forall|j: int| 0 <= j < ranges@.len() implies #[trigger] parts[j] == p@.subrange(
            ranges@[j].0 as int,
            ranges@[j].1 as int,
        ) by {
            assert(ranges@.map_values(f)[j] == f(ranges@[j]));
        }
    }
    let n = ranges.len();
    if n == 1 {
        if p.len() != v.len() {
            assert(v@ != p@);
            return false;
        }
        let eq = bytes_eq_at(p, 0, v, 0, p.len());
        assert(p@.subrange(0, p@.len() as int) =~= p@);
        assert(v@.subrange(0, v@.len() as int) =~= v@);
        return eq;
    }
    // first fragment: anchored at the start
    let (s0, e0) = ranges[0];
    let l0 = e0 - s0;
    if v.len() < l0 || !bytes_eq_at(p, s0, v, 0, l0) {
        proof {
            if v@.len() >= l0 {
                assert(v@.take(l0 as int) =~= v@.subrange(0, l0 as int));
            }
        }
        return false;
    }
    assert(v@.take(l0 as int) =~= v@.subrange(0, l0 as int));
    let mut pos: usize = l0;
    let mut i: usize = 1;
    // middle fragments: leftmost occurrence after `pos`
    while i + 1 < n
        invariant
            1 <= i < n,
            p@ == vstd::utf8::encode_utf8(pattern@),
            v@ == vstd::utf8::encode_utf8(value@),
            n == ranges@.len(),
            n == parts.len(),
            pos <= v@.len(),
            forall|j: int| 0 <= j < n ==> (#[trigger] ranges@[j]).0 <= ranges@[j].1 <= p@.len(),
            forall|j: int| 0 <= j < n ==> #[trigger] parts[j] == p@.subrange(
                ranges@[j].0 as int,
                ranges@[j].1 as int,
            ),
            wild_match(p@, v@) == gaps_match(parts.skip(i as int), v@.skip(pos as int)),
        decreases n - i,
    {
        let (s, e) = ranges[i];
        let len = e - s;
        let ghost w = v@.skip(pos as int);
        let ghost q = parts[i as int];
        assert(parts.skip(i as int)[0] == q);
        assert(parts.skip(i as int).drop_first() =~= parts.skip(i + 1));
        // leftmost k >= pos with v[k .. k + len] == q
        let vl = v.len();
        let mut k: usize = pos;
        let mut found = false;
        if len <= vl - pos {
            while !found && k <= vl - len
                invariant
                    pos <= k <= vl - len + 1,
                    vl == v@.len(),
                    len <= vl,
                    len == q.len(),
                    w == v@.skip(pos as int),
                    q == p@.subrange(s as int, e as int),
                    s <= e <= p@.len(),
                    len == e - s,
                    pos <= v@.len(),
                    found ==> k + len <= vl && occurs_at(w, q, k - pos),
                    forall|j: int| 0 <= j < k - pos ==> !#[trigger] occurs_at(w, q, j),
                decreases vl - len + 1 - k + (if found { 0int } else { 1int }),
            {
                let hit = bytes_eq_at(p, s, v, k, len);
                proof {
                    assert(w.subrange(k - pos, k - pos + q.len()) =~= v@.subrange(k as int, k + len));
                    if len == 0 {
                        assert(v@.subrange(k as int, k as int) =~= p@.subrange(s as int, s as int));
                    }
                }
                if hit {
                    found = true;
                } else {
                    k = k + 1;
                }
            }
        }
        if !found {
            proof {
                assert(!gaps_match(parts.skip(i as int), w)) by {
                    if gaps_match(parts.skip(i as int), w) {
                        let j = choose|j: int|
                            #[trigger] occurs_at(w, q, j) && gaps_match(
                                parts.skip(i as int).drop_first(),
                                w.skip(j + q.len()),
                            );
                        assert(j < k - pos);
                    }
                }
            }
            return false;
        }
        proof {
            lemma_gaps_leftmost(parts.skip(i as int), w, k - pos);
            assert(w.skip(k - pos + q.len()) =~= v@.skip(k + len));
        }
        pos = k + len;
        i = i + 1;
    }
    // last fragment: anchored at the end
    let (sl, el) = ranges[i];
    let ll = el - sl;
    proof {
        assert(i == n - 1);
        assert(parts.skip(i as int) =~= seq![parts[i as int]]);
    }
    if v.len() - pos < ll {
        return false;
    }
    let r = bytes_eq_at(p, sl, v, v.len() - ll, ll);
    proof {
        let w = v@.skip(pos as int);
        assert(w.skip(w.len() - ll) =~= v@.subrange(v@.len() - ll, v@.len() as int));
    }
    r
}

/// Does a label value (absent: `None`) satisfy matcher `m`? `Re`/`Nre` use
/// the anchored simple pattern; an absent value fails `Eq` and `Re`.
pub open spec fn matcher_accepts(m: LabelMatcher, value: Option<Seq<char>>) -> bool {
    match m.op {
        MatchOp::Eq => value matches Some(v) && v == m.pattern@,
        MatchOp::Ne => !(value matches Some(v) && v == m.pattern@),
        MatchOp::Re => value matches Some(v) && wild_match(
            vstd::utf8::encode_utf8(m.pattern@),
            vstd::utf8::encode_utf8(v),
        ),
        MatchOp::Nre => !(value matches Some(v) && wild_match(
            vstd::utf8::encode_utf8(m.pattern@),
            vstd::utf8::encode_utf8(v),
        )),
    }
}

impl LabelMatcher {
    /// Does `value` satisfy this matcher? `Re`/`Nre` go through the anchored
    /// simple-pattern matcher; an absent value fails `Eq` and `Re`.
    pub fn matches(&self, value: Option<&str>) -> (b: bool)
        ensures
            b == matcher_accepts(
                *self,
                match value {
                    Some(v) => Some(v@),
                    None => None,
                },
            ),
    {
        match self.op {
            MatchOp::Eq => match value {
                Some(v) => crate::text::str_eq(v, self.pattern.as_str()),
                None => false,
            },
            MatchOp::Ne => match value {
                Some(v) => !crate::text::str_eq(v, self.pattern.as_str()),
                None => true,
            },
            MatchOp::Re => match value {
                Some(v) => simple_re_match(self.pattern.as_str(), v),
                None => false,
            },
            MatchOp::Nre => match value {
                Some(v) => !simple_re_match(self.pattern.as_str(), v),
                None => true,
            },
        }
    }
}

// ---------- duration literals ----------

pub open spec fn is_digit(c: char) -> bool {
    '0' <= c <= '9'
}

/// `s`, `m`, `h` or `d`.
pub open spec fn is_unit(c: char) -> bool {
    c == 's' || c == 'm' || c == 'h' || c == 'd'
}

/// Nanoseconds per unit.
pub open spec fn unit_nanos(c: char) -> int {
    if c == 's' {
        1_000_000_000
    } else if c == 'm' {
        60_000_000_000
    } else if c == 'h' {
        3_600_000_000_000
    } else {
        86_400_000_000_000
    }
}

/// How many decimal digits `s` starts with.
pub open spec fn lead_digits(s: Seq<char>) -> nat
    decreases s.len(),
{
    if s.len() > 0 && is_digit(s[0]) {
        1 + lead_digits(s.skip(1))
    } else {
        0
    }
}

/// The value of a run of decimal digits.
pub open spec fn digits_value(d: Seq<char>) -> int
    decreases d.len(),
{
    if d.len() == 0 {
        0
    } else {
        digits_value(d.drop_last()) * 10 + (d.last() as int - 48)
    }
}

/// The nanoseconds a run of `<digits><unit>` groups stands for; `None`
/// when `s` is not such a run. The empty run stands for zero.
pub open spec fn duration_nanos(s: Seq<char>) -> Option<int>
    decreases s.len(),
{
    if s.len() == 0 {
        Some(0)
    } else {
        let k = lead_digits(s);
        if k == 0 || k >= s.len() || !is_unit(s[k as int]) {
            None
        } else {
            match duration_nanos(s.skip((k + 1) as int)) {
                Some(rest) => Some(digits_value(s.take(k as int)) * unit_nanos(s[k as int]) + rest),
                None => None,
            }
        }
    }
}

proof fn lemma_lead_digits(s: Seq<char>)
    ensures
        lead_digits(s) <= s.len(),
        forall|j: int| 0 <= j < lead_digits(s) ==> is_digit(#[trigger] s[j]),
        lead_digits(s) < s.len() ==> !is_digit(s[lead_digits(s) as int]),
    decreases s.len(),
{
    if s.len() > 0 && is_digit(s[0]) {
        lemma_lead_digits(s.skip(1));
        assert forall|j: int| 0 <= j < lead_digits(s) implies is_digit(#[trigger] s[j]) by {
            if j > 0 {
                assert(s[j] == s.skip(1)[j - 1]);
            }
        }
    }
}

proof fn lemma_lead_digits_of(s: Seq<char>, k: int)
    requires
        0 <= k <= s.len(),
        forall|j: int| 0 <= j < k ==> is_digit(#[trigger] s[j]),
        k < s.len() ==> !is_digit(s[k]),
    ensures
        lead_digits(s) == k,
    decreases k,
{
    if k > 0 {
        lemma_lead_digits_of(s.skip(1), k - 1);
    }
}

proof fn lemma_duration_nonneg(s: Seq<char>)
    ensures
        duration_nanos(s) matches Some(v) ==> v >= 0,
    decreases s.len(),
{
    if s.len() > 0 {
        let k = lead_digits(s);
        lemma_lead_digits(s);
        if k > 0 && k < s.len() && is_unit(s[k as int]) {
            lemma_duration_nonneg(s.skip((k + 1) as int));
            lemma_digits_nonneg(s.take(k as int));
        }
    }
}

proof fn lemma_digits_nonneg(d: Seq<char>)
    ensures
        digits_value(d) >= 0 || exists|j: int| 0 <= j < d.len() && !is_digit(d[j]),
    decreases d.len(),
{
    if d.len() > 0 {
        lemma_digits_nonneg(d.drop_last());
        if exists|j: int| 0 <= j < d.drop_last().len() && !is_digit(d.drop_last()[j]) {
            let j = choose|j: int| 0 <= j < d.drop_last().len() && !is_digit(d.drop_last()[j]);
            assert(d[j] == d.drop_last()[j]);
        }
    }
}

/// A duration literal is one or more `<digits><unit>` groups, e.g. `5m`,
/// `90s`, `1h30m`. Units: s, m, h, d.
fn is_duration_literal(word: &Vec<char>) -> (b: bool)
    ensures
        b == (word@.len() > 0 && duration_nanos(word@) is Some),
{
    let n = word.len();
    if n == 0 {
        return false;
    }
    let mut i: usize = 0;
    assert(word@.skip(0) =~= word@);
    while i < n
        invariant
            i <= n,
            n == word@.len(),
            (duration_nanos(word@) is Some) == (duration_nanos(word@.skip(i as int)) is Some),
        decreases n - i,
    {
        let ghost rest = word@.skip(i as int);
        let start = i;
        while i < n && '0' <= word[i] && word[i] <= '9'
            invariant
                start <= i <= n,
                n == word@.len(),
                forall|j: int| start <= j < i ==> is_digit(#[trigger] word@[j]),
            decreases n - i,
        {
            i = i + 1;
        }
        proof {
            assert forall|j: int| 0 <= j < i - start implies is_digit(#[trigger] rest[j]) by {
                assert(rest[j] == word@[start + j]);
            }
            if i < n {
                assert(rest[i - start] == word@[i as int]);
            }
            lemma_lead_digits_of(rest, i - start);
        }
        if i == start || i >= n {
            return false;
        }
        let u = word[i];
        if !(u == 's' || u == 'm' || u == 'h' || u == 'd') {
            assert(rest[i - start] == u);
            return false;
        }
        i = i + 1;
        proof {
            assert(rest.skip(i - start) =~= word@.skip(i as int));
        }
    }
    proof {
        assert(word@.skip(n as int) =~= Seq::<char>::empty());
    }
    true
}

/// Parse a duration literal to nanoseconds (`s`/`m`/`h`/`d` multipliers).
/// The empty literal is zero. A malformed literal, or one whose value does
/// not fit in `i64` nanoseconds, is a `Parse` error.
pub fn parse_duration_ns(word: &str) -> (r: Result<i64, TsPromQlError>)
    ensures
        match r {
            Ok(v) => duration_nanos(word@) == Some(v as int),
            Err(e) => e is Parse && match duration_nanos(word@) {
                Some(v) => v > i64::MAX,
                None => true,
            },
        },
{
    let bytes = crate::text::str_chars(word);
    let ghost s = bytes@;
    let n = bytes.len();
    let mut i: usize = 0;
    let mut total: i64 = 0;
    assert(s.skip(0) =~= s);
    while i < n
        invariant
            i <= n,
            n == s.len(),
            s == bytes@,
            s == word@,
            total >= 0,
            duration_nanos(s) == match duration_nanos(s.skip(i as int)) {
                Some(rest) => Some(total + rest),
                None => None,
            },
        decreases n - i,
    {
        let ghost rest = s.skip(i as int);
        let start = i;
        let mut value: i64 = 0;
        let mut big = false;
        while i < n && '0' <= bytes[i] && bytes[i] <= '9'
            invariant
                start <= i <= n,
                n == s.len(),
                s == bytes@,
                value >= 0,
                forall|j: int| start <= j < i ==> is_digit(#[trigger] s[j]),
                !big ==> value == digits_value(s.subrange(start as int, i as int)),
                big ==> digits_value(s.subrange(start as int, i as int)) > i64::MAX,
            decreases n - i,
        {
            let d = (bytes[i] as u32 - 48) as i64;
            proof {
                assert(s.subrange(start as int, i + 1).drop_last() =~= s.subrange(start as int, i as int));
            }
            if !big {
                if value > (i64::MAX - d) / 10 {
                    big = true;
                } else {
                    value = value * 10 + d;
                }
            }
            i = i + 1;
        }
        proof {
            assert forall|j: int| 0 <= j < i - start implies is_digit(#[trigger] rest[j]) by {
                assert(rest[j] == s[start + j]);
            }
            if i < n {
                assert(rest[i - start] == s[i as int]);
            }
            lemma_lead_digits_of(rest, i - start);
            assert(rest.take(i - start) =~= s.subrange(start as int, i as int));
        }
        if i == start {
            return Err(TsPromQlError::Parse("bad duration number".to_string()));
        }
        if i >= n {
            return Err(TsPromQlError::Parse("duration missing unit".to_string()));
        }
        let u = bytes[i];
        let mult: i64 = if u == 's' {
            1_000_000_000
        } else if u == 'm' {
            60_000_000_000
        } else if u == 'h' {
            3_600_000_000_000
        } else if u == 'd' {
            86_400_000_000_000
        } else {
            assert(rest[i - start] == u);
            return Err(TsPromQlError::Parse("unknown duration unit".to_string()));
        };
        assert(rest[i - start] == u);
        let ghost after = s.skip(i + 1);
        proof {
            assert(rest.skip(i - start + 1) =~= after);
            lemma_duration_nonneg(after);
        }
        if big {
            return Err(TsPromQlError::Parse("duration overflows i64 nanos".to_string()));
        }
        let step = match value.checked_mul(mult) {
            Some(x) => x,
            None => {
                return Err(TsPromQlError::Parse("duration overflows i64 nanos".to_string()));
            },
        };
        total = match total.checked_add(step) {
            Some(x) => x,
            None => {
                return Err(TsPromQlError::Parse("duration overflows i64 nanos".to_string()));
            },
        };
        i = i + 1;
    }
    proof {
        assert(s.skip(n as int) =~= Seq::<char>::empty());
    }
    Ok(total)
}

// ---------- lexer ----------

/// Token kinds of the query language.
#[derive(Clone, Copy, Debug, PartialEq, Eq, Structural)]
pub enum TokKind {
    Ident,
    Str,
    Num,
    Duration,
    LParen,
    RParen,
    LBrace,
    RBrace,
    LBrack,
    RBrack,
    Comma,
    Plus,
    Minus,
    Star,
    Slash,
    /// `=~`
    EqMatch,
    /// `!~`
    NeMatch,
    /// `=`
    Eq,
    /// `!=`
    Ne,
}

/// A token: its kind and its text (identifier, string body, number or
/// duration; empty for punctuation).
#[derive(Debug)]
pub struct Token {
    pub kind: TokKind,
    pub text: String,
}

/// A token as a kind and text.
pub type TokV = (TokKind, Seq<char>);

pub open spec fn tok_v(t: Token) -> TokV {
    (t.kind, t.text@)
}

pub open spec fn toks_v(ts: Seq<Token>) -> Seq<TokV> {
    ts.map_values(|t: Token| tok_v(t))
}

/// ASCII whitespace: space, tab, newline, form feed, carriage return.
pub open spec fn is_space(c: char) -> bool {
    c == ' ' || c == '\t' || c == '\n' || c == '\x0C' || c == '\r'
}

pub open spec fn is_alpha(c: char) -> bool {
    ('a' <= c <= 'z') || ('A' <= c <= 'Z')
}

pub open spec fn ident_start(c: char) -> bool {
    is_alpha(c) || c == '_' || c == ':'
}

pub open spec fn ident_cont(c: char) -> bool {
    is_alpha(c) || is_digit(c) || c == '_' || c == ':'
}

/// A word that is one or more `<digits><unit>` groups.
pub open spec fn duration_word(w: Seq<char>) -> bool {
    w.len() > 0 && duration_nanos(w) is Some
}

/// The first position at or after `p` that is not whitespace.
pub open spec fn skip_space(s: Seq<char>, p: int) -> int
    decreases s.len() - p,
{
    if 0 <= p < s.len() && is_space(s[p]) {
        skip_space(s, p + 1)
    } else {
        p
    }
}

/// The end of the run of identifier characters starting at `p`.
pub open spec fn ident_end(s: Seq<char>, p: int) -> int
    decreases s.len() - p,
{
    if 0 <= p < s.len() && ident_cont(s[p]) {
        ident_end(s, p + 1)
    } else {
        p
    }
}

/// The end of a number's run from `i` (digits, `.`, `e`/`E`, and a sign
/// right after an exponent marker), and whether it stayed all digits.
pub open spec fn number_end(s: Seq<char>, i: int, pure: bool) -> (int, bool)
    decreases s.len() - i,
{
    if i < 1 || i >= s.len() {
        (i, pure)
    } else if is_digit(s[i]) {
        number_end(s, i + 1, pure)
    } else if s[i] == '.' || s[i] == 'e' || s[i] == 'E' {
        number_end(s, i + 1, false)
    } else if (s[i] == '+' || s[i] == '-') && (s[i - 1] == 'e' || s[i - 1] == 'E') {
        number_end(s, i + 1, pure)
    } else {
        (i, pure)
    }
}

/// The end of a duration's run of digits and unit letters from `i`.
pub open spec fn duration_end(s: Seq<char>, i: int) -> int
    decreases s.len() - i,
{
    if 0 <= i < s.len() && (is_digit(s[i]) || is_unit(s[i])) {
        duration_end(s, i + 1)
    } else {
        i
    }
}

/// The first position at or after `i` holding `q` (the length if none).
pub open spec fn quote_end(s: Seq<char>, i: int, q: char) -> int
    decreases s.len() - i,
{
    if 0 <= i < s.len() && s[i] != q {
        quote_end(s, i + 1, q)
    } else {
        i
    }
}

pub open spec fn single_kind(c: char) -> Option<TokKind> {
    if c == '(' {
        Some(TokKind::LParen)
    } else if c == ')' {
        Some(TokKind::RParen)
    } else if c == '{' {
        Some(TokKind::LBrace)
    } else if c == '}' {
        Some(TokKind::RBrace)
    } else if c == '[' {
        Some(TokKind::LBrack)
    } else if c == ']' {
        Some(TokKind::RBrack)
    } else if c == ',' {
        Some(TokKind::Comma)
    } else if c == '+' {
        Some(TokKind::Plus)
    } else if c == '-' {
        Some(TokKind::Minus)
    } else if c == '*' {
        Some(TokKind::Star)
    } else if c == '/' {
        Some(TokKind::Slash)
    } else {
        None
    }
}

/// The token starting at `p` (a non-space position) and where it ends;
/// `None` on a lexical error (unterminated string, `!` not followed by `=`
/// or `~`, or a character no token starts with).
pub open spec fn lex_at(s: Seq<char>, p: int) -> Option<(TokKind, Seq<char>, int)> {
    let c = s[p];
    if single_kind(c) is Some {
        Some((single_kind(c)->0, Seq::empty(), p + 1))
    } else if c == '"' || c == '\'' {
        let e = quote_end(s, p + 1, c);
        if e >= s.len() {
            None
        } else {
            Some((TokKind::Str, s.subrange(p + 1, e), e + 1))
        }
    } else if c == '=' {
        if p + 1 < s.len() && s[p + 1] == '~' {
            Some((TokKind::EqMatch, Seq::empty(), p + 2))
        } else {
            Some((TokKind::Eq, Seq::empty(), p + 1))
        }
    } else if c == '!' {
        if p + 1 < s.len() && s[p + 1] == '=' {
            Some((TokKind::Ne, Seq::empty(), p + 2))
        } else if p + 1 < s.len() && s[p + 1] == '~' {
            Some((TokKind::NeMatch, Seq::empty(), p + 2))
        } else {
            None
        }
    } else if is_digit(c) {
        let (e, pure) = number_end(s, p + 1, true);
        if pure && e < s.len() && is_unit(s[e]) {
            let d = duration_end(s, e);
            Some((TokKind::Duration, s.subrange(p, d), d))
        } else {
            Some((TokKind::Num, s.subrange(p, e), e))
        }
    } else if ident_start(c) {
        let e = ident_end(s, p + 1);
        let w = s.subrange(p, e);
        if duration_word(w) {
            Some((TokKind::Duration, w, e))
        } else {
            Some((TokKind::Ident, w, e))
        }
    } else {
        None
    }
}

/// The tokens of `s` from `p` on; `None` on a lexical error.
pub open spec fn lex_from(s: Seq<char>, p: int) -> Option<Seq<TokV>>
    decreases s.len() - p,
{
    let q = skip_space(s, p);
    if p < 0 || q >= s.len() {
        Some(Seq::empty())
    } else {
        match lex_at(s, q) {
            None => None,
            Some((k, t, r)) => if p < r <= s.len() {
                match lex_from(s, r) {
                    Some(rest) => Some(seq![(k, t)] + rest),
                    None => None,
                }
            } else {
                None
            },
        }
    }
}

fn is_space_exec(c: char) -> (b: bool)
    ensures
        b == is_space(c),
{
    c == ' ' || c == '\t' || c == '\n' || c == '\x0C' || c == '\r'
}

fn ident_cont_exec(c: char) -> (b: bool)
    ensures
        b == ident_cont(c),
{
    ('a' <= c && c <= 'z') || ('A' <= c && c <= 'Z') || ('0' <= c && c <= '9') || c == '_' || c
        == ':'
}

fn single_kind_exec(c: char) -> (k: Option<TokKind>)
    ensures
        k == single_kind(c),
{
    if c == '(' {
        Some(TokKind::LParen)
    } else if c == ')' {
        Some(TokKind::RParen)
    } else if c == '{' {
        Some(TokKind::LBrace)
    } else if c == '}' {
        Some(TokKind::RBrace)
    } else if c == '[' {
        Some(TokKind::LBrack)
    } else if c == ']' {
        Some(TokKind::RBrack)
    } else if c == ',' {
        Some(TokKind::Comma)
    } else if c == '+' {
        Some(TokKind::Plus)
    } else if c == '-' {
        Some(TokKind::Minus)
    } else if c == '*' {
        Some(TokKind::Star)
    } else if c == '/' {
        Some(TokKind::Slash)
    } else {
        None
    }
}

/// The token at `p` (a non-space position): kind, text, end.
fn lex_at_exec(s: &Vec<char>, p: usize) -> (r: Result<(TokKind, String, usize), TsPromQlError>)
    requires
        p < s@.len(),
    ensures
        match r {
            Ok((k, t, e)) => lex_at(s@, p as int) == Some((k, t@, e as int)) && p < e <= s@.len(),
            Err(err) => err is Parse && lex_at(s@, p as int) is None,
        },
{
    let n = s.len();
    let c = s[p];
    if let Some(k) = single_kind_exec(c) {
        return Ok((k, String::new(), p + 1));
    }
    if c == '"' || c == '\'' {
        let mut e = p + 1;
        while e < n && s[e] != c
            invariant
                p + 1 <= e <= n,
                n == s@.len(),
                quote_end(s@, p + 1, c) == quote_end(s@, e as int, c),
            decreases n - e,
        {
            e = e + 1;
        }
        if e >= n {
            return Err(TsPromQlError::Parse("unterminated string literal".to_string()));
        }
        let t = string_from_chars(s, p + 1, e);
        return Ok((TokKind::Str, t, e + 1));
    }
    if c == '=' {
        if p + 1 < n && s[p + 1] == '~' {
            return Ok((TokKind::EqMatch, String::new(), p + 2));
        }
        return Ok((TokKind::Eq, String::new(), p + 1));
    }
    if c == '!' {
        if p + 1 < n && s[p + 1] == '=' {
            return Ok((TokKind::Ne, String::new(), p + 2));
        }
        if p + 1 < n && s[p + 1] == '~' {
            return Ok((TokKind::NeMatch, String::new(), p + 2));
        }
        return Err(TsPromQlError::Parse("expected = or ~ after !".to_string()));
    }
    if '0' <= c && c <= '9' {
        let mut e = p + 1;
        let mut pure = true;
        while e < n
            invariant
                p + 1 <= e <= n,
                n == s@.len(),
                number_end(s@, p + 1, true) == number_end(s@, e as int, pure),
            ensures
                p + 1 <= e <= n,
                number_end(s@, p + 1, true) == (e as int, pure),
            decreases n - e,
        {
            let d = s[e];
            if '0' <= d && d <= '9' {
                e = e + 1;
            } else if d == '.' || d == 'e' || d == 'E' {
                pure = false;
                e = e + 1;
            } else if (d == '+' || d == '-') && (s[e - 1] == 'e' || s[e - 1] == 'E') {
                e = e + 1;
            } else {
                break;
            }
        }
        if pure && e < n && (s[e] == 's' || s[e] == 'm' || s[e] == 'h' || s[e] == 'd') {
            let mut d = e;
            while d < n && (('0' <= s[d] && s[d] <= '9') || s[d] == 's' || s[d] == 'm' || s[d]
                == 'h' || s[d] == 'd')
                invariant
                    e <= d <= n,
                    n == s@.len(),
                    duration_end(s@, e as int) == duration_end(s@, d as int),
                decreases n - d,
            {
                d = d + 1;
            }
            let t = string_from_chars(s, p, d);
            return Ok((TokKind::Duration, t, d));
        }
        let t = string_from_chars(s, p, e);
        return Ok((TokKind::Num, t, e));
    }
    if ('a' <= c && c <= 'z') || ('A' <= c && c <= 'Z') || c == '_' || c == ':' {
        let mut e = p + 1;
        while e < n && ident_cont_exec(s[e])
            invariant
                p + 1 <= e <= n,
                n == s@.len(),
                ident_end(s@, p + 1) == ident_end(s@, e as int),
            decreases n - e,
        {
            e = e + 1;
        }
        let mut w: Vec<char> = Vec::new();
        for i in p..e
            invariant
                p <= e <= n,
                n == s@.len(),
                w@ == s@.subrange(p as int, i as int),
        {
            w.push(s[i]);
            assert(w@ =~= s@.subrange(p as int, i + 1));
        }
        let t = string_from_chars(s, p, e);
        if is_duration_literal(&w) {
            return Ok((TokKind::Duration, t, e));
        }
        return Ok((TokKind::Ident, t, e));
    }
    Err(TsPromQlError::Parse("unexpected character".to_string()))
}

/// Split a query into tokens. A lexical error is a `Parse` error.
pub fn tokenize(src: &str) -> (r: Result<Vec<Token>, TsPromQlError>)
    ensures
        match r {
            Ok(ts) => lex_from(src@, 0) == Some(toks_v(ts@)),
            Err(e) => e is Parse && lex_from(src@, 0) is None,
        },
{
    let s = crate::text::str_chars(src);
    let n = s.len();
    let mut out: Vec<Token> = Vec::new();
    let mut p: usize = 0;
    while p < n
        invariant
            p <= n,
            n == s@.len(),
            s@ == src@,
            lex_from(src@, 0) == match lex_from(src@, p as int) {
                Some(rest) => Some(toks_v(out@) + rest),
                None => None::<Seq<TokV>>,
            },
        decreases n - p,
    {
        let mut q = p;
        while q < n && is_space_exec(s[q])
            invariant
                p <= q <= n,
                n == s@.len(),
                skip_space(s@, p as int) == skip_space(s@, q as int),
            decreases n - q,
        {
            q = q + 1;
        }
        if q >= n {
            proof {
                assert(lex_from(src@, p as int) == Some(Seq::<TokV>::empty()));
                assert(toks_v(out@) + Seq::<TokV>::empty() =~= toks_v(out@));
                assert(lex_from(src@, n as int) == Some(Seq::<TokV>::empty()));
            }
            p = n;
        } else {
            let (k, t, e) = lex_at_exec(&s, q)?;
            let ghost prev = out@;
            let ghost tv = t@;
            out.push(Token { kind: k, text: t });
            proof {
                assert(toks_v(out@) =~= toks_v(prev).push((k, tv)));
                assert(toks_v(prev) + (seq![(k, tv)] + match lex_from(src@, e as int) {
                    Some(rest) => rest,
                    None => Seq::<TokV>::empty(),
                }) =~= toks_v(out@) + match lex_from(src@, e as int) {
                    Some(rest) => rest,
                    None => Seq::<TokV>::empty(),
                });
            }
            p = e;
        }
    }
    proof {
        if p >= n {
            assert(lex_from(src@, p as int) == Some(Seq::<TokV>::empty()));
            assert(toks_v(out@) + Seq::<TokV>::empty() =~= toks_v(out@));
        }
    }
    Ok(out)
}

// ---------- parser ----------

/// Parsed query tree. Range vectors are only legal as the argument of a
/// range function, so they ride inside [`Expr::Func`] as the selector plus
/// its `range_ns`. A scalar keeps its literal text (already checked to be a
/// well-formed decimal floating-point literal).
#[derive(Debug)]
pub enum Expr {
    Scalar(String),
    Selector(Selector),
    Func { kind: FuncKind, selector: Selector, range_ns: i64 },
    Agg { op: AggOp, grouping: Grouping, inner: Box<Expr> },
    Binary { op: BinOp, lhs: Box<Expr>, rhs: Box<Expr> },
}

/// A grouping clause, abstractly.
pub enum GroupingV {
    All,
    By(Seq<Seq<char>>),
    Without(Seq<Seq<char>>),
}

/// A selector, abstractly.
pub struct SelV {
    pub metric: Seq<char>,
    pub matchers: Seq<(Seq<char>, MatchOp, Seq<char>)>,
    pub offset: i64,
}

/// A query tree, abstractly.
pub enum ExprV {
    Scalar(Seq<char>),
    Sel(SelV),
    Func(FuncKind, SelV, i64),
    Agg(AggOp, GroupingV, Box<ExprV>),
    Bin(BinOp, Box<ExprV>, Box<ExprV>),
}

pub open spec fn matcher_v(m: LabelMatcher) -> (Seq<char>, MatchOp, Seq<char>) {
    (m.label@, m.op, m.pattern@)
}

pub open spec fn selector_v(s: Selector) -> SelV {
    SelV {
        metric: s.metric@,
        matchers: s.matchers@.map_values(|m: LabelMatcher| matcher_v(m)),
        offset: s.offset_ns,
    }
}

pub open spec fn grouping_v(g: Grouping) -> GroupingV {
    match g {
        Grouping::All => GroupingV::All,
        Grouping::By(ls) => GroupingV::By(ls@.map_values(|l: String| l@)),
        Grouping::Without(ls) => GroupingV::Without(ls@.map_values(|l: String| l@)),
    }
}

pub open spec fn expr_v(e: Expr) -> ExprV
    decreases e,
{
    match e {
        Expr::Scalar(t) => ExprV::Scalar(t@),
        Expr::Selector(s) => ExprV::Sel(selector_v(s)),
        Expr::Func { kind, selector, range_ns } => ExprV::Func(kind, selector_v(selector), range_ns),
        Expr::Agg { op, grouping, inner } => ExprV::Agg(
            op,
            grouping_v(grouping),
            Box::new(expr_v(*inner)),
        ),
        Expr::Binary { op, lhs, rhs } => ExprV::Bin(
            op,
            Box::new(expr_v(*lhs)),
            Box::new(expr_v(*rhs)),
        ),
    }
}

/// An exponent part: `e`/`E`, an optional sign, one or more digits.
pub open spec fn exponent_text(r: Seq<char>) -> bool {
    &&& r.len() > 0
    &&& (r[0] == 'e' || r[0] == 'E')
    &&& {
        let r1 = r.skip(1);
        let r2 = if r1.len() > 0 && (r1[0] == '+' || r1[0] == '-') {
            r1.skip(1)
        } else {
            r1
        };
        r2.len() > 0 && lead_digits(r2) == r2.len()
    }
}

/// A decimal floating-point literal that starts with a digit, as Rust's
/// `f64` parser accepts it: digits, optionally `.` and more digits,
/// optionally an exponent.
pub open spec fn float_text(w: Seq<char>) -> bool {
    let a = lead_digits(w);
    let r = w.skip(a as int);
    &&& a > 0
    &&& (r.len() == 0 || exponent_text(r) || (r[0] == '.' && {
        let r2 = r.skip(1);
        let r3 = r2.skip(lead_digits(r2) as int);
        r3.len() == 0 || exponent_text(r3)
    }))
}

pub open spec fn agg_of(w: Seq<char>) -> Option<AggOp> {
    if w == seq!['s', 'u', 'm'] {
        Some(AggOp::Sum)
    } else if w == seq!['a', 'v', 'g'] {
        Some(AggOp::Avg)
    } else if w == seq!['m', 'i', 'n'] {
        Some(AggOp::Min)
    } else if w == seq!['m', 'a', 'x'] {
        Some(AggOp::Max)
    } else if w == seq!['c', 'o', 'u', 'n', 't'] {
        Some(AggOp::Count)
    } else {
        None
    }
}

pub open spec fn func_of(w: Seq<char>) -> Option<FuncKind> {
    if w == seq!['r', 'a', 't', 'e'] {
        Some(FuncKind::Rate)
    } else if w == seq!['i', 'r', 'a', 't', 'e'] {
        Some(FuncKind::Irate)
    } else if w == seq!['i', 'n', 'c', 'r', 'e', 'a', 's', 'e'] {
        Some(FuncKind::Increase)
    } else {
        None
    }
}

pub open spec fn kind_at(t: Seq<TokV>, i: int) -> Option<TokKind> {
    if 0 <= i < t.len() {
        Some(t[i].0)
    } else {
        None
    }
}

/// Token `i` is the identifier `w`.
pub open spec fn word_at(t: Seq<TokV>, i: int, w: Seq<char>) -> bool {
    0 <= i < t.len() && t[i].0 == TokKind::Ident && t[i].1 == w
}

/// The nanoseconds of a duration literal that fits in `i64`.
pub open spec fn duration_value(w: Seq<char>) -> Option<i64> {
    match duration_nanos(w) {
        Some(v) => if v <= i64::MAX {
            Some(v as i64)
        } else {
            None
        },
        None => None,
    }
}

/// `offset <duration>` at `pos`, if present: its value and where parsing
/// goes on. `None` when `offset` is not followed by a valid duration.
pub open spec fn offset_at(t: Seq<TokV>, pos: int) -> Option<(Option<i64>, int)> {
    if word_at(t, pos, seq!['o', 'f', 'f', 's', 'e', 't']) {
        if kind_at(t, pos + 1) == Some(TokKind::Duration) {
            match duration_value(t[pos + 1].1) {
                Some(v) => Some((Some(v), pos + 2)),
                None => None,
            }
        } else {
            None
        }
    } else {
        Some((None, pos))
    }
}

pub open spec fn match_op_of(k: TokKind) -> Option<MatchOp> {
    match k {
        TokKind::Eq => Some(MatchOp::Eq),
        TokKind::Ne => Some(MatchOp::Ne),
        TokKind::EqMatch => Some(MatchOp::Re),
        TokKind::NeMatch => Some(MatchOp::Nre),
        _ => None,
    }
}

/// The matchers of a `{...}` list from `pos` (just inside the brace, or
/// after a comma), appended to `acc`; and the position after the `}`.
pub open spec fn matchers_at(t: Seq<TokV>, pos: int, acc: Seq<(Seq<char>, MatchOp, Seq<char>)>) -> Option<
    (Seq<(Seq<char>, MatchOp, Seq<char>)>, int),
>
    decreases t.len() - pos,
{
    if kind_at(t, pos) == Some(TokKind::RBrace) {
        Some((acc, pos + 1))
    } else if kind_at(t, pos) == Some(TokKind::Ident) && match_op_of(t[pos + 1].0) is Some
        && pos + 2 < t.len() && kind_at(t, pos + 2) == Some(TokKind::Str) {
        let m = (t[pos].1, match_op_of(t[pos + 1].0)->0, t[pos + 2].1);
        if kind_at(t, pos + 3) == Some(TokKind::Comma) {
            matchers_at(t, pos + 4, acc.push(m))
        } else if kind_at(t, pos + 3) == Some(TokKind::RBrace) {
            Some((acc.push(m), pos + 4))
        } else {
            None
        }
    } else {
        None
    }
}

/// `metric ({matchers})? (offset d)?` at `pos`.
pub open spec fn selector_at(t: Seq<TokV>, pos: int) -> Option<(SelV, int)> {
    if kind_at(t, pos) != Some(TokKind::Ident) {
        None
    } else {
        let ms = if kind_at(t, pos + 1) == Some(TokKind::LBrace) {
            matchers_at(t, pos + 2, Seq::empty())
        } else {
            Some((Seq::empty(), pos + 1))
        };
        match ms {
            None => None,
            Some((ms, p1)) => match offset_at(t, p1) {
                None => None,
                Some((off, p2)) => Some(
                    (
                        SelV {
                            metric: t[pos].1,
                            matchers: ms,
                            offset: match off {
                                Some(o) => o,
                                None => 0,
                            },
                        },
                        p2,
                    ),
                ),
            },
        }
    }
}

/// The labels of a grouping list from `pos`, appended to `acc`; and the
/// position after the `)`.
pub open spec fn labels_at(t: Seq<TokV>, pos: int, acc: Seq<Seq<char>>) -> Option<(Seq<Seq<char>>, int)>
    decreases t.len() - pos,
{
    if kind_at(t, pos) == Some(TokKind::RParen) {
        Some((acc, pos + 1))
    } else if kind_at(t, pos) == Some(TokKind::Ident) {
        if kind_at(t, pos + 1) == Some(TokKind::Comma) {
            labels_at(t, pos + 2, acc.push(t[pos].1))
        } else if kind_at(t, pos + 1) == Some(TokKind::RParen) {
            Some((acc.push(t[pos].1), pos + 2))
        } else {
            None
        }
    } else {
        None
    }
}

/// `by (labels)` or `without (labels)` at `pos`, if present.
pub open spec fn grouping_at(t: Seq<TokV>, pos: int) -> Option<(GroupingV, int)> {
    let by = word_at(t, pos, seq!['b', 'y']);
    let without = word_at(t, pos, seq!['w', 'i', 't', 'h', 'o', 'u', 't']);
    if !by && !without {
        Some((GroupingV::All, pos))
    } else if kind_at(t, pos + 1) != Some(TokKind::LParen) {
        None
    } else {
        match labels_at(t, pos + 2, Seq::empty()) {
            None => None,
            Some((ls, p)) => Some(
                (
                    if by {
                        GroupingV::By(ls)
                    } else {
                        GroupingV::Without(ls)
                    },
                    p,
                ),
            ),
        }
    }
}

/// `( selector [ duration ] offset? )` at `pos`, after a range function's
/// name.
pub open spec fn func_at(t: Seq<TokV>, kind: FuncKind, pos: int) -> Option<(ExprV, int)> {
    if kind_at(t, pos) != Some(TokKind::LParen) {
        None
    } else {
        match selector_at(t, pos + 1) {
            None => None,
            Some((sel, p1)) => if kind_at(t, p1) != Some(TokKind::LBrack) || kind_at(t, p1 + 1)
                != Some(TokKind::Duration) || kind_at(t, p1 + 2) != Some(TokKind::RBrack) {
                None
            } else {
                match duration_value(t[p1 + 1].1) {
                    None => None,
                    Some(range) => match offset_at(t, p1 + 3) {
                        None => None,
                        Some((off, p2)) => if kind_at(t, p2) != Some(TokKind::RParen) {
                            None
                        } else {
                            let sel2 = match off {
                                Some(o) => SelV { offset: o, ..sel },
                                None => sel,
                            };
                            Some((ExprV::Func(kind, sel2, range), p2 + 1))
                        },
                    },
                }
            },
        }
    }
}

pub open spec fn expr_at(t: Seq<TokV>, pos: int) -> Option<(ExprV, int)>
    decreases t.len() - pos, 3int,
{
    match term_at(t, pos) {
        Some((l, p2)) => if pos < p2 <= t.len() {
            expr_rest_at(t, l, p2)
        } else {
            None
        },
        None => None,
    }
}

pub open spec fn expr_rest_at(t: Seq<TokV>, lhs: ExprV, pos: int) -> Option<(ExprV, int)>
    decreases t.len() - pos, 0int,
{
    let op = if kind_at(t, pos) == Some(TokKind::Plus) {
        Some(BinOp::Add)
    } else if kind_at(t, pos) == Some(TokKind::Minus) {
        Some(BinOp::Sub)
    } else {
        None
    };
    match op {
        None => Some((lhs, pos)),
        Some(o) => match term_at(t, pos + 1) {
            Some((r, p3)) => if pos + 1 < p3 <= t.len() {
                expr_rest_at(t, ExprV::Bin(o, Box::new(lhs), Box::new(r)), p3)
            } else {
                None
            },
            None => None,
        },
    }
}

pub open spec fn term_at(t: Seq<TokV>, pos: int) -> Option<(ExprV, int)>
    decreases t.len() - pos, 2int,
{
    match factor_at(t, pos) {
        Some((l, p2)) => if pos < p2 <= t.len() {
            term_rest_at(t, l, p2)
        } else {
            None
        },
        None => None,
    }
}

pub open spec fn term_rest_at(t: Seq<TokV>, lhs: ExprV, pos: int) -> Option<(ExprV, int)>
    decreases t.len() - pos, 0int,
{
    let op = if kind_at(t, pos) == Some(TokKind::Star) {
        Some(BinOp::Mul)
    } else if kind_at(t, pos) == Some(TokKind::Slash) {
        Some(BinOp::Div)
    } else {
        None
    };
    match op {
        None => Some((lhs, pos)),
        Some(o) => match factor_at(t, pos + 1) {
            Some((r, p3)) => if pos + 1 < p3 <= t.len() {
                term_rest_at(t, ExprV::Bin(o, Box::new(lhs), Box::new(r)), p3)
            } else {
                None
            },
            None => None,
        },
    }
}

pub open spec fn factor_at(t: Seq<TokV>, pos: int) -> Option<(ExprV, int)>
    decreases t.len() - pos, 1int,
{
    if pos < 0 || pos >= t.len() {
        None
    } else {
        let (k, w) = t[pos];
        match k {
            TokKind::Num => if float_text(w) {
                Some((ExprV::Scalar(w), pos + 1))
            } else {
                None
            },
            TokKind::LParen => match expr_at(t, pos + 1) {
                Some((e, p2)) => if kind_at(t, p2) == Some(TokKind::RParen) {
                    Some((e, p2 + 1))
                } else {
                    None
                },
                None => None,
            },
            TokKind::Ident => if agg_of(w) is Some {
                agg_at(t, agg_of(w)->0, pos + 1)
            } else if func_of(w) is Some {
                func_at(t, func_of(w)->0, pos + 1)
            } else {
                match selector_at(t, pos) {
                    Some((sel, p2)) => Some((ExprV::Sel(sel), p2)),
                    None => None,
                }
            },
            _ => None,
        }
    }
}

/// `grouping? ( expr ) grouping?` at `pos`, after an aggregation's name;
/// the trailing grouping is read only when there was no leading one.
pub open spec fn agg_at(t: Seq<TokV>, op: AggOp, pos: int) -> Option<(ExprV, int)>
    decreases t.len() - pos, 0int,
{
    match grouping_at(t, pos) {
        None => None,
        Some((g1, p1)) => if !(pos <= p1 < t.len()) || t[p1].0 != TokKind::LParen {
            None
        } else {
            match expr_at(t, p1 + 1) {
                None => None,
                Some((inner, p2)) => if kind_at(t, p2) != Some(TokKind::RParen) {
                    None
                } else if g1 is All {
                    match grouping_at(t, p2 + 1) {
                        None => None,
                        Some((g2, p3)) => Some((ExprV::Agg(op, g2, Box::new(inner)), p3)),
                    }
                } else {
                    Some((ExprV::Agg(op, g1, Box::new(inner)), p2 + 1))
                },
            }
        },
    }
}

/// What [`parse`] makes of a query: the tree when the whole input is one
/// expression, `None` otherwise.
pub open spec fn parse_spec(src: Seq<char>) -> Option<ExprV> {
    match lex_from(src, 0) {
        None => None,
        Some(t) => if t.len() == 0 {
            None
        } else {
            match expr_at(t, 0) {
                Some((e, p)) => if p == t.len() {
                    Some(e)
                } else {
                    None
                },
                None => None,
            }
        },
    }
}

fn word_is(tok: &Token, w: &str) -> (b: bool)
    ensures
        b == (tok.kind == TokKind::Ident && tok.text@ == w@),
{
    tok.kind == TokKind::Ident && crate::text::str_eq(tok.text.as_str(), w)
}

fn kind_of(t: &Vec<Token>, i: usize) -> (k: Option<TokKind>)
    ensures
        k == kind_at(toks_v(t@), i as int),
{
    if i < t.len() {
        Some(t[i].kind)
    } else {
        None
    }
}

fn lead_digits_exec(w: &Vec<char>, from: usize) -> (e: usize)
    requires
        from <= w@.len(),
    ensures
        from <= e <= w@.len(),
        e - from == lead_digits(w@.skip(from as int)),
{
    let n = w.len();
    let mut e = from;
    while e < n && '0' <= w[e] && w[e] <= '9'
        invariant
            from <= e <= n,
            n == w@.len(),
            forall|j: int| from <= j < e ==> is_digit(#[trigger] w@[j]),
        decreases n - e,
    {
        e = e + 1;
    }
    proof {
        let r = w@.skip(from as int);
        assert forall|j: int| 0 <= j < e - from implies is_digit(#[trigger] r[j]) by {
            assert(r[j] == w@[from + j]);
        }
        if e < n {
            assert(r[e - from] == w@[e as int]);
        }
        lemma_lead_digits_of(r, e - from);
    }
    e
}

fn exponent_exec(w: &Vec<char>, from: usize) -> (b: bool)
    requires
        from <= w@.len(),
    ensures
        b == exponent_text(w@.skip(from as int)),
{
    let n = w.len();
    let ghost r = w@.skip(from as int);
    if from >= n || !(w[from] == 'e' || w[from] == 'E') {
        return false;
    }
    assert(r[0] == w@[from as int]);
    let mut i = from + 1;
    let ghost r1 = r.skip(1);
    assert(r1 =~= w@.skip(i as int));
    if i < n && (w[i] == '+' || w[i] == '-') {
        assert(r1[0] == w@[i as int]);
        i = i + 1;
        assert(r1.skip(1) =~= w@.skip(i as int));
    }
    let e = lead_digits_exec(w, i);
    e > i && e == n
}

/// Is `w` a decimal floating-point literal (starting with a digit)?
pub(crate) fn float_text_exec(w: &Vec<char>) -> (b: bool)
    ensures
        b == float_text(w@),
{
    let n = w.len();
    assert(w@.skip(0) =~= w@);
    let a = lead_digits_exec(w, 0);
    if a == 0 {
        return false;
    }
    if a == n {
        return true;
    }
    if exponent_exec(w, a) {
        return true;
    }
    if w[a] != '.' {
        return false;
    }
    let ghost r = w@.skip(a as int);
    assert(r[0] == w@[a as int]);
    assert(r.skip(1) =~= w@.skip(a + 1));
    let b = lead_digits_exec(w, a + 1);
    assert(r.skip(1).skip(b - (a + 1)) =~= w@.skip(b as int));
    b == n || exponent_exec(w, b)
}

fn agg_op_exec(w: &str) -> (r: Option<AggOp>)
    ensures
        r == agg_of(w@),
{
    proof {
        reveal_strlit("sum");
        assert("sum"@ =~= seq!['s', 'u', 'm']);
        reveal_strlit("avg");
        assert("avg"@ =~= seq!['a', 'v', 'g']);
        reveal_strlit("min");
        assert("min"@ =~= seq!['m', 'i', 'n']);
        reveal_strlit("max");
        assert("max"@ =~= seq!['m', 'a', 'x']);
        reveal_strlit("count");
        assert("count"@ =~= seq!['c', 'o', 'u', 'n', 't']);
    }
    if crate::text::str_eq(w, "sum") {
        Some(AggOp::Sum)
    } else if crate::text::str_eq(w, "avg") {
        Some(AggOp::Avg)
    } else if crate::text::str_eq(w, "min") {
        Some(AggOp::Min)
    } else if crate::text::str_eq(w, "max") {
        Some(AggOp::Max)
    } else if crate::text::str_eq(w, "count") {
        Some(AggOp::Count)
    } else {
        None
    }
}

fn func_kind_exec(w: &str) -> (r: Option<FuncKind>)
    ensures
        r == func_of(w@),
{
    proof {
        reveal_strlit("rate");
        assert("rate"@ =~= seq!['r', 'a', 't', 'e']);
        reveal_strlit("irate");
        assert("irate"@ =~= seq!['i', 'r', 'a', 't', 'e']);
        reveal_strlit("increase");
        assert("increase"@ =~= seq!['i', 'n', 'c', 'r', 'e', 'a', 's', 'e']);
    }
    if crate::text::str_eq(w, "rate") {
        Some(FuncKind::Rate)
    } else if crate::text::str_eq(w, "irate") {
        Some(FuncKind::Irate)
    } else if crate::text::str_eq(w, "increase") {
        Some(FuncKind::Increase)
    } else {
        None
    }
}

fn duration_value_exec(w: &str) -> (r: Option<i64>)
    ensures
        r == duration_value(w@),
{
    match parse_duration_ns(w) {
        Ok(v) => Some(v),
        Err(_) => None,
    }
}

fn parse_err<A>(msg: &str) -> (r: Result<A, TsPromQlError>)
    ensures
        r matches Err(e) && e is Parse,
{
    Err(TsPromQlError::Parse(msg.to_string()))
}

fn parse_offset(t: &Vec<Token>, pos: usize) -> (r: Result<(Option<i64>, usize), TsPromQlError>)
    requires
        pos <= t@.len(),
    ensures
        match r {
            Ok((o, p)) => offset_at(toks_v(t@), pos as int) == Some((o, p as int)) && pos <= p
                <= t@.len(),
            Err(e) => e is Parse && offset_at(toks_v(t@), pos as int) is None,
        },
{
    proof {
        reveal_strlit("offset");
        assert("offset"@ =~= seq!['o', 'f', 'f', 's', 'e', 't']);
    }
    let n = t.len();
    if pos < n && word_is(&t[pos], "offset") {
        if pos + 1 < n && kind_of(t, pos + 1) == Some(TokKind::Duration) {
            match duration_value_exec(t[pos + 1].text.as_str()) {
                Some(v) => Ok((Some(v), pos + 2)),
                None => parse_err("bad duration after offset"),
            }
        } else {
            parse_err("expected duration after offset")
        }
    } else {
        Ok((None, pos))
    }
}

fn parse_selector(t: &Vec<Token>, pos: usize) -> (r: Result<(Selector, usize), TsPromQlError>)
    requires
        pos <= t@.len(),
    ensures
        match r {
            Ok((sel, p)) => selector_at(toks_v(t@), pos as int) == Some((selector_v(sel), p as int))
                && pos < p <= t@.len(),
            Err(e) => e is Parse && selector_at(toks_v(t@), pos as int) is None,
        },
{
    let ghost tv = toks_v(t@);
    let n = t.len();
    if kind_of(t, pos) != Some(TokKind::Ident) {
        return parse_err("expected metric name");
    }
    let metric = t[pos].text.clone();
    let mut matchers: Vec<LabelMatcher> = Vec::new();
    let mut p = pos + 1;
    proof {
        assert(matchers@.map_values(|m: LabelMatcher| matcher_v(m)) =~= Seq::<
            (Seq<char>, MatchOp, Seq<char>),
        >::empty());
    }
    if kind_of(t, pos + 1) == Some(TokKind::LBrace) {
        p = pos + 2;
        loop
            invariant_except_break
                pos + 2 <= p <= t@.len(),
                matchers_at(tv, pos + 2, Seq::empty()) == matchers_at(
                    tv,
                    p as int,
                    matchers@.map_values(|m: LabelMatcher| matcher_v(m)),
                ),
            invariant
                n == t@.len(),
                tv == toks_v(t@),
                kind_at(tv, pos + 1) == Some(TokKind::LBrace),
            ensures
                pos + 2 < p <= t@.len(),
                matchers_at(tv, pos + 2, Seq::empty()) == Some(
                    (matchers@.map_values(|m: LabelMatcher| matcher_v(m)), p as int),
                ),
            decreases t@.len() - p,
        {
            if kind_of(t, p) == Some(TokKind::RBrace) {
                p = p + 1;
                break;
            }
            if p >= n {
                return parse_err("unterminated matcher list");
            }
            let op = if p + 1 < n {
                match t[p + 1].kind {
                    TokKind::Eq => Some(MatchOp::Eq),
                    TokKind::Ne => Some(MatchOp::Ne),
                    TokKind::EqMatch => Some(MatchOp::Re),
                    TokKind::NeMatch => Some(MatchOp::Nre),
                    _ => None,
                }
            } else {
                None
            };
            if kind_of(t, p) != Some(TokKind::Ident) || op.is_none() || !(p + 2 < n)
                || t[p + 2].kind != TokKind::Str {
                return parse_err("expected label matcher");
            }
            let m = LabelMatcher {
                label: t[p].text.clone(),
                op: op.unwrap(),
                pattern: t[p + 2].text.clone(),
            };
            let ghost prev = matchers@;
            matchers.push(m);
            proof {
                assert(matchers@.map_values(|x: LabelMatcher| matcher_v(x)) =~= prev.map_values(
                    |x: LabelMatcher| matcher_v(x),
                ).push(matcher_v(m)));
            }
            if kind_of(t, p + 3) == Some(TokKind::Comma) {
                p = p + 4;
            } else if kind_of(t, p + 3) == Some(TokKind::RBrace) {
                p = p + 4;
                break;
            } else {
                return parse_err("expected , or } in matcher list");
            }
        }
    }
    let ghost ms = if kind_at(tv, pos + 1) == Some(TokKind::LBrace) {
        matchers_at(tv, pos + 2, Seq::empty())
    } else {
        Some((Seq::empty(), pos + 1))
    };
    assert(ms == Some((matchers@.map_values(|m: LabelMatcher| matcher_v(m)), p as int)));
    let (off, p2) = parse_offset(t, p)?;
    let sel = Selector {
        metric,
        matchers,
        offset_ns: match off {
            Some(o) => o,
            None => 0,
        },
    };
    Ok((sel, p2))
}

fn parse_grouping(t: &Vec<Token>, pos: usize) -> (r: Result<(Grouping, usize), TsPromQlError>)
    requires
        pos <= t@.len(),
    ensures
        match r {
            Ok((g, p)) => grouping_at(toks_v(t@), pos as int) == Some((grouping_v(g), p as int))
                && pos <= p <= t@.len(),
            Err(e) => e is Parse && grouping_at(toks_v(t@), pos as int) is None,
        },
{
    let ghost tv = toks_v(t@);
    proof {
        reveal_strlit("by");
        assert("by"@ =~= seq!['b', 'y']);
        reveal_strlit("without");
        assert("without"@ =~= seq!['w', 'i', 't', 'h', 'o', 'u', 't']);
    }
    let n = t.len();
    let by = pos < t.len() && word_is(&t[pos], "by");
    let without = pos < t.len() && word_is(&t[pos], "without");
    if !by && !without {
        return Ok((Grouping::All, pos));
    }
    if kind_of(t, pos + 1) != Some(TokKind::LParen) {
        return parse_err("expected ( after grouping keyword");
    }
    let mut labels: Vec<String> = Vec::new();
    let mut p = pos + 2;
    proof {
        assert(labels@.map_values(|l: String| l@) =~= Seq::<Seq<char>>::empty());
    }
    loop
        invariant_except_break
            pos + 2 <= p <= t@.len(),
            labels_at(tv, pos + 2, Seq::empty()) == labels_at(
                tv,
                p as int,
                labels@.map_values(|l: String| l@),
            ),
        invariant
            n == t@.len(),
            tv == toks_v(t@),
            by == word_at(tv, pos as int, seq!['b', 'y']),
            without == word_at(tv, pos as int, seq!['w', 'i', 't', 'h', 'o', 'u', 't']),
            by || without,
            kind_at(tv, pos + 1) == Some(TokKind::LParen),
        ensures
            pos + 2 < p <= t@.len(),
            labels_at(tv, pos + 2, Seq::empty()) == Some((labels@.map_values(|l: String| l@), p as int)),
        decreases t@.len() - p,
    {
        if kind_of(t, p) == Some(TokKind::RParen) {
            p = p + 1;
            break;
        }
        if kind_of(t, p) != Some(TokKind::Ident) {
            return parse_err("expected label or ) in grouping");
        }
        let ghost prev = labels@;
        let l = t[p].text.clone();
        labels.push(l);
        proof {
            assert(labels@.map_values(|x: String| x@) =~= prev.map_values(|x: String| x@).push(
                tv[p as int].1,
            ));
        }
        if kind_of(t, p + 1) == Some(TokKind::Comma) {
            p = p + 2;
        } else if kind_of(t, p + 1) == Some(TokKind::RParen) {
            p = p + 2;
            break;
        } else {
            return parse_err("expected , or ) in grouping");
        }
    }
    let g = if by {
        Grouping::By(labels)
    } else {
        Grouping::Without(labels)
    };
    Ok((g, p))
}

fn parse_func(t: &Vec<Token>, kind: FuncKind, pos: usize) -> (r: Result<(Expr, usize), TsPromQlError>)
    requires
        pos <= t@.len(),
    ensures
        match r {
            Ok((e, p)) => func_at(toks_v(t@), kind, pos as int) == Some((expr_v(e), p as int))
                && pos < p <= t@.len(),
            Err(x) => x is Parse && func_at(toks_v(t@), kind, pos as int) is None,
        },
{
    let n = t.len();
    if kind_of(t, pos) != Some(TokKind::LParen) {
        return parse_err("expected (");
    }
    let (sel, p1) = parse_selector(t, pos + 1)?;
    if p1 >= n || n - p1 <= 2 || kind_of(t, p1) != Some(TokKind::LBrack) || kind_of(t, p1 + 1)
        != Some(TokKind::Duration) || kind_of(t, p1 + 2) != Some(TokKind::RBrack) {
        return parse_err("expected range duration in [ ]");
    }
    let range = match duration_value_exec(t[p1 + 1].text.as_str()) {
        Some(v) => v,
        None => {
            return parse_err("bad range duration");
        },
    };
    let (off, p2) = parse_offset(t, p1 + 3)?;
    if kind_of(t, p2) != Some(TokKind::RParen) {
        return parse_err("expected )");
    }
    let mut selector = sel;
    match off {
        Some(o) => {
            selector.offset_ns = o;
        },
        None => {},
    }
    let e = Expr::Func { kind, selector, range_ns: range };
    Ok((e, p2 + 1))
}

fn parse_expr(t: &Vec<Token>, pos: usize) -> (r: Result<(Expr, usize), TsPromQlError>)
    requires
        pos <= t@.len(),
    ensures
        match r {
            Ok((e, p)) => expr_at(toks_v(t@), pos as int) == Some((expr_v(e), p as int)) && pos
                < p <= t@.len(),
            Err(x) => x is Parse && expr_at(toks_v(t@), pos as int) is None,
        },
    decreases t@.len() - pos, 3int,
{
    let ghost tv = toks_v(t@);
    let (l, p2) = parse_term(t, pos)?;
    let mut lhs = l;
    let mut p = p2;
    loop
        invariant
            pos < p <= t@.len(),
            tv == toks_v(t@),
            expr_at(tv, pos as int) == expr_rest_at(tv, expr_v(lhs), p as int),
        decreases t@.len() - p,
    {
        if p >= t.len() {
            return Ok((lhs, p));
        }
        let op = match kind_of(t, p) {
            Some(TokKind::Plus) => BinOp::Add,
            Some(TokKind::Minus) => BinOp::Sub,
            _ => {
                return Ok((lhs, p));
            },
        };
        let (rhs, p3) = parse_term(t, p + 1)?;
        lhs = Expr::Binary { op, lhs: Box::new(lhs), rhs: Box::new(rhs) };
        p = p3;
    }
}

fn parse_term(t: &Vec<Token>, pos: usize) -> (r: Result<(Expr, usize), TsPromQlError>)
    requires
        pos <= t@.len(),
    ensures
        match r {
            Ok((e, p)) => term_at(toks_v(t@), pos as int) == Some((expr_v(e), p as int)) && pos
                < p <= t@.len(),
            Err(x) => x is Parse && term_at(toks_v(t@), pos as int) is None,
        },
    decreases t@.len() - pos, 2int,
{
    let ghost tv = toks_v(t@);
    let (l, p2) = parse_factor(t, pos)?;
    let mut lhs = l;
    let mut p = p2;
    loop
        invariant
            pos < p <= t@.len(),
            tv == toks_v(t@),
            term_at(tv, pos as int) == term_rest_at(tv, expr_v(lhs), p as int),
        decreases t@.len() - p,
    {
        if p >= t.len() {
            return Ok((lhs, p));
        }
        let op = match kind_of(t, p) {
            Some(TokKind::Star) => BinOp::Mul,
            Some(TokKind::Slash) => BinOp::Div,
            _ => {
                return Ok((lhs, p));
            },
        };
        let (rhs, p3) = parse_factor(t, p + 1)?;
        lhs = Expr::Binary { op, lhs: Box::new(lhs), rhs: Box::new(rhs) };
        p = p3;
    }
}

fn parse_factor(t: &Vec<Token>, pos: usize) -> (r: Result<(Expr, usize), TsPromQlError>)
    requires
        pos <= t@.len(),
    ensures
        match r {
            Ok((e, p)) => factor_at(toks_v(t@), pos as int) == Some((expr_v(e), p as int)) && pos
                < p <= t@.len(),
            Err(x) => x is Parse && factor_at(toks_v(t@), pos as int) is None,
        },
    decreases t@.len() - pos, 1int,
{
    if pos >= t.len() {
        return parse_err("unexpected end of query");
    }
    let k = t[pos].kind;
    match k {
        TokKind::Num => {
            let w = crate::text::str_chars(t[pos].text.as_str());
            if float_text_exec(&w) {
                Ok((Expr::Scalar(t[pos].text.clone()), pos + 1))
            } else {
                parse_err("bad number")
            }
        },
        TokKind::LParen => {
            let (e, p2) = parse_expr(t, pos + 1)?;
            if p2 < t.len() && kind_of(t, p2) == Some(TokKind::RParen) {
                Ok((e, p2 + 1))
            } else {
                parse_err("expected )")
            }
        },
        TokKind::Ident => {
            let w = t[pos].text.as_str();
            match agg_op_exec(w) {
                Some(op) => {
                    return parse_agg(t, op, pos + 1);
                },
                None => {},
            }
            match func_kind_exec(w) {
                Some(kind) => {
                    return parse_func(t, kind, pos + 1);
                },
                None => {},
            }
            let (sel, p2) = parse_selector(t, pos)?;
            Ok((Expr::Selector(sel), p2))
        },
        _ => parse_err("unexpected token where an expression was expected"),
    }
}

fn parse_agg(t: &Vec<Token>, op: AggOp, pos: usize) -> (r: Result<(Expr, usize), TsPromQlError>)
    requires
        0 < pos <= t@.len(),
    ensures
        match r {
            Ok((e, p)) => agg_at(toks_v(t@), op, pos as int) == Some((expr_v(e), p as int)) && pos
                < p <= t@.len(),
            Err(x) => x is Parse && agg_at(toks_v(t@), op, pos as int) is None,
        },
    decreases t@.len() - pos, 0int,
{
    let n = t.len();
    let (g1, p1) = parse_grouping(t, pos)?;
    if p1 >= n || kind_of(t, p1) != Some(TokKind::LParen) {
        return parse_err("expected ( after aggregation");
    }
    let (inner, p2) = parse_expr(t, p1 + 1)?;
    if p2 >= n || kind_of(t, p2) != Some(TokKind::RParen) {
        return parse_err("expected ) after aggregation body");
    }
    match g1 {
        Grouping::All => {
            let (g2, p3) = parse_grouping(t, p2 + 1)?;
            Ok((Expr::Agg { op, grouping: g2, inner: Box::new(inner) }, p3))
        },
        _ => Ok((Expr::Agg { op, grouping: g1, inner: Box::new(inner) }, p2 + 1)),
    }
}

/// Parse a full query string into an [`Expr`]. Trailing tokens after a
/// complete expression, an empty query, or any malformed part is a `Parse`
/// error.
pub fn parse(src: &str) -> (r: Result<Expr, TsPromQlError>)
    ensures
        match r {
            Ok(e) => parse_spec(src@) == Some(expr_v(e)),
            Err(x) => x is Parse && parse_spec(src@) is None,
        },
{
    let toks = tokenize(src)?;
    if toks.len() == 0 {
        return parse_err("empty query");
    }
    let (e, p) = parse_expr(&toks, 0)?;
    if p != toks.len() {
        return parse_err("trailing tokens after expression");
    }
    Ok(e)
}


/// A word that names neither an aggregation nor a range function.
pub open spec fn plain_word(m: Seq<char>) -> bool {
    &&& m != seq!['s', 'u', 'm']
    &&& m != seq!['a', 'v', 'g']
    &&& m != seq!['m', 'i', 'n']
    &&& m != seq!['m', 'a', 'x']
    &&& m != seq!['c', 'o', 'u', 'n', 't']
    &&& m != seq!['r', 'a', 't', 'e']
    &&& m != seq!['i', 'r', 'a', 't', 'e']
    &&& m != seq!['i', 'n', 'c', 'r', 'e', 'a', 's', 'e']
}

/// The selector of a bare metric name: no matchers, no offset.
pub open spec fn bare_selector(m: Seq<char>) -> ExprV {
    ExprV::Sel(SelV { metric: m, matchers: Seq::empty(), offset: 0 })
}

/// Each aggregation keyword parses to its own operator: the tokens of
/// `sum(m)`, `avg(m)`, `min(m)`, `max(m)` and `count(m)` are, whole, an
/// aggregation without grouping over the selector `m`, with the operator
/// `Sum`, `Avg`, `Min`, `Max` and `Count` respectively.
pub proof fn lemma_aggregation_keyword_operator(t: Seq<TokV>, m: Seq<char>)
    requires
        t.len() == 4,
        t[0].0 == TokKind::Ident,
        t[1].0 == TokKind::LParen,
        t[2] == (TokKind::Ident, m),
        t[3].0 == TokKind::RParen,
        plain_word(m),
    ensures
        t[0].1 == seq!['s', 'u', 'm'] ==> expr_at(t, 0) == Some(
            (ExprV::Agg(AggOp::Sum, GroupingV::All, Box::new(bare_selector(m))), 4int),
        ),
        t[0].1 == seq!['a', 'v', 'g'] ==> expr_at(t, 0) == Some(
            (ExprV::Agg(AggOp::Avg, GroupingV::All, Box::new(bare_selector(m))), 4int),
        ),
        t[0].1 == seq!['m', 'i', 'n'] ==> expr_at(t, 0) == Some(
            (ExprV::Agg(AggOp::Min, GroupingV::All, Box::new(bare_selector(m))), 4int),
        ),
        t[0].1 == seq!['m', 'a', 'x'] ==> expr_at(t, 0) == Some(
            (ExprV::Agg(AggOp::Max, GroupingV::All, Box::new(bare_selector(m))), 4int),
        ),
        t[0].1 == seq!['c', 'o', 'u', 'n', 't'] ==> expr_at(t, 0) == Some(
            (ExprV::Agg(AggOp::Count, GroupingV::All, Box::new(bare_selector(m))), 4int),
        ),
{
    let sel = bare_selector(m);
    assert(selector_at(t, 2) == Some((SelV { metric: m, matchers: Seq::empty(), offset: 0 }, 3int)));
    assert(factor_at(t, 2) == Some((sel, 3int)));
    assert(term_rest_at(t, sel, 3) == Some((sel, 3int)));
    assert(term_at(t, 2) == Some((sel, 3int)));
    assert(expr_rest_at(t, sel, 3) == Some((sel, 3int)));
    assert(expr_at(t, 2) == Some((sel, 3int)));
    assert(grouping_at(t, 1) == Some((GroupingV::All, 1int)));
    assert(grouping_at(t, 4) == Some((GroupingV::All, 4int)));
    if agg_of(t[0].1) is Some {
        let op = agg_of(t[0].1)->0;
        let e = ExprV::Agg(op, GroupingV::All, Box::new(sel));
        assert(agg_at(t, op, 1) == Some((e, 4int)));
        assert(factor_at(t, 0) == Some((e, 4int)));
        assert(term_rest_at(t, e, 4) == Some((e, 4int)));
        assert(term_at(t, 0) == Some((e, 4int)));
        assert(expr_rest_at(t, e, 4) == Some((e, 4int)));
    }
}

/// A string literal lexes as one `Str` token whatever its quote: from an
/// opening `'` or `"` at `p` to the next occurrence `q` of the same quote,
/// the token's text is what lies strictly between them and lexing goes on
/// after `q`. Without a closing quote the literal is a lexical error.
pub proof fn lemma_quoted_string_token(s: Seq<char>, p: int, q: int)
    requires
        0 <= p < s.len(),
        s[p] == '\'' || s[p] == '"',
        p < q <= s.len(),
        forall|k: int| p < k < q ==> s[k] != s[p],
        q < s.len() ==> s[q] == s[p],
    ensures
        q < s.len() ==> lex_at(s, p) == Some((TokKind::Str, s.subrange(p + 1, q), q + 1)),
        q == s.len() ==> lex_at(s, p) is None,
{
    lemma_quote_end_at(s, p + 1, q, s[p]);
}

proof fn lemma_quote_end_at(s: Seq<char>, i: int, q: int, c: char)
    requires
        0 <= i <= q <= s.len(),
        forall|k: int| i <= k < q ==> s[k] != c,
        q < s.len() ==> s[q] == c,
    ensures
        quote_end(s, i, c) == q,
    decreases q - i,
{
    if i < q {
        lemma_quote_end_at(s, i + 1, q, c);
    }
}


/// An identifier: an identifier start followed by identifier characters.
pub open spec fn ident_word(w: Seq<char>) -> bool {
    &&& w.len() > 0
    &&& ident_start(w[0])
    &&& forall|k: int| 0 < k < w.len() ==> ident_cont(#[trigger] w[k])
}

proof fn lemma_ident_end_at(s: Seq<char>, i: int, j: int)
    requires
        0 <= i <= j <= s.len(),
        forall|k: int| i <= k < j ==> ident_cont(#[trigger] s[k]),
        j < s.len() ==> !ident_cont(s[j]),
    ensures
        ident_end(s, i) == j,
    decreases j - i,
{
    if i < j {
        lemma_ident_end_at(s, i + 1, j);
    }
}

/// The word of identifier `w` starting at `p` in `s`, up to a non-identifier
/// character or the end, lexes as one `Ident` token.
proof fn lemma_lex_ident(s: Seq<char>, p: int, w: Seq<char>)
    requires
        ident_word(w),
        0 <= p,
        p + w.len() <= s.len(),
        s.subrange(p, p + w.len()) == w,
        p + w.len() < s.len() ==> !ident_cont(s[p + w.len()]),
    ensures
        skip_space(s, p) == p,
        lex_at(s, p) == Some((TokKind::Ident, w, p + w.len())),
{
    assert(s[p] == w[0]);
    assert forall|k: int| p + 1 <= k < p + w.len() implies ident_cont(#[trigger] s[k]) by {
        assert(s[k] == w[k - p]);
    }
    lemma_ident_end_at(s, p + 1, p + w.len());
    assert(lead_digits(w) == 0);
    assert(!duration_word(w));
}

/// A call `w(m)` of two identifiers lexes as the identifier `w`, `(`, the
/// identifier `m` and `)`.
proof fn lemma_lex_call(w: Seq<char>, m: Seq<char>)
    requires
        ident_word(w),
        ident_word(m),
    ensures
        lex_from(w + seq!['('] + m + seq![')'], 0) == Some(
            seq![
                (TokKind::Ident, w),
                (TokKind::LParen, Seq::<char>::empty()),
                (TokKind::Ident, m),
                (TokKind::RParen, Seq::<char>::empty()),
            ],
        ),
{
    let s = w + seq!['('] + m + seq![')'];
    let a = w.len() as int;
    let b = a + 1 + m.len();
    let n = b + 1;
    let e = Seq::<char>::empty();
    assert(s.len() == n);
    assert(s[a] == '(');
    assert(s[b] == ')');
    assert(lex_from(s, n) == Some(Seq::<TokV>::empty()));
    assert(skip_space(s, b) == b);
    assert(lex_at(s, b) == Some((TokKind::RParen, e, n)));
    let r3 = seq![(TokKind::RParen, e)];
    assert(seq![(TokKind::RParen, e)] + Seq::<TokV>::empty() =~= r3);
    assert(lex_from(s, b) == Some(r3));
    assert(s.subrange(a + 1, b) =~= m);
    lemma_lex_ident(s, a + 1, m);
    let r2 = seq![(TokKind::Ident, m), (TokKind::RParen, e)];
    assert(seq![(TokKind::Ident, m)] + r3 =~= r2);
    assert(lex_from(s, a + 1) == Some(r2));
    assert(skip_space(s, a) == a);
    assert(lex_at(s, a) == Some((TokKind::LParen, e, a + 1)));
    let r1 = seq![(TokKind::LParen, e), (TokKind::Ident, m), (TokKind::RParen, e)];
    assert(seq![(TokKind::LParen, e)] + r2 =~= r1);
    assert(lex_from(s, a) == Some(r1));
    assert(s.subrange(0, a) =~= w);
    lemma_lex_ident(s, 0, w);
    let r0 = seq![(TokKind::Ident, w), (TokKind::LParen, e), (TokKind::Ident, m), (TokKind::RParen, e)];
    assert(seq![(TokKind::Ident, w)] + r1 =~= r0);
}

/// Each aggregation keyword parses to its own operator: for any metric
/// name `m`, the query `sum(m)`, `avg(m)`, `min(m)`, `max(m)` or `count(m)`
/// parses to an aggregation without grouping over the selector `m`, with
/// the operator `Sum`, `Avg`, `Min`, `Max` or `Count` respectively.
pub proof fn lemma_parse_aggregation_keyword(w: Seq<char>, m: Seq<char>)
    requires
        w == seq!['s', 'u', 'm'] || w == seq!['a', 'v', 'g'] || w == seq!['m', 'i', 'n'] || w
            == seq!['m', 'a', 'x'] || w == seq!['c', 'o', 'u', 'n', 't'],
        ident_word(m),
        plain_word(m),
    ensures
        w == seq!['s', 'u', 'm'] ==> parse_spec(w + seq!['('] + m + seq![')']) == Some(
            ExprV::Agg(AggOp::Sum, GroupingV::All, Box::new(bare_selector(m))),
        ),
        w == seq!['a', 'v', 'g'] ==> parse_spec(w + seq!['('] + m + seq![')']) == Some(
            ExprV::Agg(AggOp::Avg, GroupingV::All, Box::new(bare_selector(m))),
        ),
        w == seq!['m', 'i', 'n'] ==> parse_spec(w + seq!['('] + m + seq![')']) == Some(
            ExprV::Agg(AggOp::Min, GroupingV::All, Box::new(bare_selector(m))),
        ),
        w == seq!['m', 'a', 'x'] ==> parse_spec(w + seq!['('] + m + seq![')']) == Some(
            ExprV::Agg(AggOp::Max, GroupingV::All, Box::new(bare_selector(m))),
        ),
        w == seq!['c', 'o', 'u', 'n', 't'] ==> parse_spec(w + seq!['('] + m + seq![')']) == Some(
            ExprV::Agg(AggOp::Count, GroupingV::All, Box::new(bare_selector(m))),
        ),
{
    assert(ident_word(w));
    lemma_lex_call(w, m);
    let e = Seq::<char>::empty();
    let t = seq![(TokKind::Ident, w), (TokKind::LParen, e), (TokKind::Ident, m), (TokKind::RParen, e)];
    lemma_aggregation_keyword_operator(t, m);
}

} // verus!
