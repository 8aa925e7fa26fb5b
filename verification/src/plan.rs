//! Composition of per-stage p99 latency budgets into a system-level latency
//! certificate. A [`TsPlan`] is an ordered list of stages plus a flat planner
//! overhead; [`TsPlan::certify`] freezes it into a [`TsLatencyCertificate`]
//! carrying an FNV-1a integrity hash over its canonical JSON body.

use vstd::prelude::*;

use crate::roundtrip::lemma_dec_nat_reads_back;
use crate::text::{
    dec_int, dec_nat, fnv1a, fnv1a_spec, json_escape_char, json_escaped, json_quoted,
    push_i64_dec, push_json_str, push_u64_dec, string_push, TsIntoString,
};

verus! {

/// One step of a plan: a recipe + stage and the published p99 (ns) for it.
#[derive(Debug, PartialEq, Eq)]
pub struct TsPlanStage {
    pub recipe: String,
    pub stage: String,
    pub p99_ns: u64,
}

/// Abstract stage: recipe text, stage text, p99 in nanoseconds.
pub type StageView = (Seq<char>, Seq<char>, u64);

impl View for TsPlanStage {
    type V = StageView;

    open spec fn view(&self) -> StageView {
        (self.recipe@, self.stage@, self.p99_ns)
    }
}

impl Clone for TsPlanStage {
    fn clone(&self) -> (res: Self)
        ensures
            res@ == self@,
    {
        TsPlanStage { recipe: self.recipe.clone(), stage: self.stage.clone(), p99_ns: self.p99_ns }
    }
}

pub open spec fn stages_view(v: Seq<TsPlanStage>) -> Seq<StageView> {
    v.map_values(|s: TsPlanStage| s@)
}

/// Saturating addition on `u64`, as a mathematical function.
pub open spec fn sat_add(a: u64, b: u64) -> u64 {
    if a + b > u64::MAX {
        u64::MAX
    } else {
        (a + b) as u64
    }
}

/// Left fold of saturating additions of every stage p99 onto `acc`.
pub open spec fn total_from(acc: u64, stages: Seq<StageView>) -> u64
    decreases stages.len(),
{
    if stages.len() == 0 {
        acc
    } else {
        sat_add(total_from(acc, stages.drop_last()), stages.last().2)
    }
}

/// Plain (unbounded) sum of the stage p99s.
pub open spec fn p99_sum(stages: Seq<StageView>) -> int
    decreases stages.len(),
{
    if stages.len() == 0 {
        0
    } else {
        p99_sum(stages.drop_last()) + stages.last().2
    }
}

/// The saturating fold equals the true sum, capped at `u64::MAX`.
pub proof fn lemma_total_is_capped_sum(acc: u64, stages: Seq<StageView>)
    ensures
        total_from(acc, stages) as int == if acc + p99_sum(stages) > u64::MAX {
            u64::MAX as int
        } else {
            acc + p99_sum(stages)
        },
    decreases stages.len(),
{
    if stages.len() > 0 {
        lemma_total_is_capped_sum(acc, stages.drop_last());
        lemma_p99_sum_nonneg(stages.drop_last());
    }
}

proof fn lemma_p99_sum_nonneg(stages: Seq<StageView>)
    ensures
        p99_sum(stages) >= 0,
    decreases stages.len(),
{
    if stages.len() > 0 {
        lemma_p99_sum_nonneg(stages.drop_last());
    }
}

/// JSON object of one stage.
pub open spec fn stage_json(s: StageView) -> Seq<char> {
    "{\"recipe\":"@ + json_quoted(s.0) + ",\"stage\":"@ + json_quoted(s.1) + ",\"p99_ns\":"@
        + dec_nat(s.2 as nat) + seq!['}']
}

/// Comma-separated JSON objects of the stages, in order.
pub open spec fn stages_json(stages: Seq<StageView>) -> Seq<char>
    decreases stages.len(),
{
    if stages.len() == 0 {
        Seq::empty()
    } else if stages.len() == 1 {
        stage_json(stages[0])
    } else {
        stages_json(stages.drop_last()) + seq![','] + stage_json(stages.last())
    }
}

/// The canonical body without its closing brace.
pub open spec fn body_open(
    tier: Seq<char>,
    total: u64,
    overhead: u64,
    valid_until: i64,
    stages: Seq<StageView>,
) -> Seq<char> {
    seq!['{'] + "\"hardware_tier\":"@ + json_quoted(tier) + ",\"total_p99_ns\":"@ + dec_nat(
        total as nat,
    ) + ",\"planner_overhead_ns\":"@ + dec_nat(overhead as nat) + ",\"valid_until\":"@ + dec_int(
        valid_until as int,
    ) + ",\"stages\":["@ + stages_json(stages) + seq![']']
}

/// An ordered sequence of recipe calls plus a flat planner overhead.
#[derive(Debug, PartialEq, Eq)]
pub struct TsPlan {
    stages: Vec<TsPlanStage>,
    planner_overhead_ns: u64,
}

impl TsPlan {
    pub closed spec fn spec_stages(&self) -> Seq<StageView> {
        stages_view(self.stages@)
    }

    pub closed spec fn spec_overhead(&self) -> u64 {
        self.planner_overhead_ns
    }

    /// The composed p99 of the plan.
    pub open spec fn spec_total(&self) -> u64 {
        total_from(self.spec_overhead(), self.spec_stages())
    }

    /// An empty plan with zero overhead.
    pub fn new() -> (p: Self)
        ensures
            p.spec_stages() == Seq::<StageView>::empty(),
            p.spec_overhead() == 0,
    {
        let p = TsPlan { stages: Vec::new(), planner_overhead_ns: 0 };
        assert(p.spec_stages() =~= Seq::<StageView>::empty());
        p
    }

    /// Append a stage citing a recipe's published p99 (builder style).
    pub fn then(self, recipe: impl TsIntoString, stage: impl TsIntoString, p99_ns: u64) -> (p:
        Self)
        ensures
            p.spec_stages() == self.spec_stages().push(
                (recipe.text_view(), stage.text_view(), p99_ns),
            ),
            p.spec_overhead() == self.spec_overhead(),
    {
        let ghost before = self.spec_stages();
        let mut p = self;
        let r = recipe.into_ts_string();
        let s = stage.into_ts_string();
        p.stages.push(TsPlanStage { recipe: r, stage: s, p99_ns });
        assert(p.spec_stages() =~= before.push((r@, s@, p99_ns)));
        p
    }

    /// Flat overhead the planner adds on top of the constituent stages.
    pub fn with_overhead(self, ns: u64) -> (p: Self)
        ensures
            p.spec_stages() == self.spec_stages(),
            p.spec_overhead() == ns,
    {
        let mut p = self;
        p.planner_overhead_ns = ns;
        p
    }

    pub fn stages(&self) -> (s: &[TsPlanStage])
        ensures
            stages_view(s@) == self.spec_stages(),
    {
        self.stages.as_slice()
    }

    pub fn planner_overhead_ns(&self) -> (ns: u64)
        ensures
            ns == self.spec_overhead(),
    {
        self.planner_overhead_ns
    }

    /// Composed system p99: the sum of stage p99s plus the planner overhead,
    /// saturating at `u64::MAX` rather than wrapping.
    pub fn total_p99_ns(&self) -> (t: u64)
        ensures
            t == self.spec_total(),
    {
        let mut acc = self.planner_overhead_ns;
        for i in 0..self.stages.len()
            invariant
                acc == total_from(self.planner_overhead_ns, self.spec_stages().take(i as int)),
        {
            proof {
                assert(self.spec_stages().take(i + 1).drop_last() =~= self.spec_stages().take(
                    i as int,
                ));
            }
            acc = acc.saturating_add(self.stages[i].p99_ns);
        }
        assert(self.spec_stages().take(self.stages.len() as int) =~= self.spec_stages());
        acc
    }

    /// Freeze the plan into a certificate for `hardware_tier`, valid until the
    /// given epoch-nanos deadline (0 = unbounded). The certificate's integrity
    /// field is the FNV-1a hash of its canonical body, so it verifies.
    pub fn certify(&self, hardware_tier: impl TsIntoString, valid_until: i64) -> (cert:
        TsLatencyCertificate)
        ensures
            cert.hardware_tier@ == hardware_tier.text_view(),
            cert.total_p99_ns == self.spec_total(),
            cert.planner_overhead_ns == self.spec_overhead(),
            cert.valid_until == valid_until,
            stages_view(cert.stages@) == self.spec_stages(),
            cert.spec_verifies(),
    {
        let mut stages: Vec<TsPlanStage> = Vec::new();
        for i in 0..self.stages.len()
            invariant
                stages_view(stages@) == self.spec_stages().take(i as int),
        {
            let s = self.stages[i].clone();
            assert(s@ == self.stages@[i as int]@);
            let ghost prev = stages@;
            stages.push(s);
            assert(stages@ =~= prev.push(s));
            assert(stages_view(stages@) =~= stages_view(prev).push(s@));
            assert(self.spec_stages().take(i + 1) =~= self.spec_stages().take(i as int).push(
                self.spec_stages()[i as int],
            ));
            assert(stages_view(stages@) =~= self.spec_stages().take(i + 1));
        }
        assert(self.spec_stages().take(self.stages.len() as int) =~= self.spec_stages());
        let mut cert = TsLatencyCertificate {
            hardware_tier: hardware_tier.into_ts_string(),
            total_p99_ns: self.total_p99_ns(),
            planner_overhead_ns: self.planner_overhead_ns,
            valid_until,
            stages,
            integrity: 0,
        };
        let body = cert.canonical_body();
        cert.integrity = fnv1a(body.as_str().as_bytes());
        cert
    }
}

impl Default for TsPlan {
    fn default() -> (p: Self)
        ensures
            p.spec_stages() == Seq::<StageView>::empty(),
            p.spec_overhead() == 0,
    {
        TsPlan::new()
    }
}

/// A checksum-sealed latency guarantee composed from a [`TsPlan`].
#[derive(Debug, PartialEq, Eq)]
pub struct TsLatencyCertificate {
    pub hardware_tier: String,
    pub total_p99_ns: u64,
    pub planner_overhead_ns: u64,
    pub valid_until: i64,
    pub stages: Vec<TsPlanStage>,
    pub integrity: u64,
}

impl TsLatencyCertificate {
    /// Canonical JSON of every field except `integrity`.
    pub open spec fn spec_body(&self) -> Seq<char> {
        body_open(
            self.hardware_tier@,
            self.total_p99_ns,
            self.planner_overhead_ns,
            self.valid_until,
            stages_view(self.stages@),
        ) + seq!['}']
    }

    /// The integrity field matches the FNV-1a hash of the canonical body's
    /// UTF-8 bytes.
    pub open spec fn spec_verifies(&self) -> bool {
        fnv1a_spec(vstd::utf8::encode_utf8(self.spec_body())) == self.integrity
    }

    /// Full certificate JSON: the canonical body with the integrity hash
    /// spliced in before its closing brace.
    pub open spec fn spec_json(&self) -> Seq<char> {
        body_open(
            self.hardware_tier@,
            self.total_p99_ns,
            self.planner_overhead_ns,
            self.valid_until,
            stages_view(self.stages@),
        ) + ",\"integrity\":"@ + dec_nat(self.integrity as nat) + seq!['}']
    }

    /// Does the composed p99 fit within `budget_ns`?
    pub fn meets_budget(&self, budget_ns: u64) -> (b: bool)
        ensures
            b == (self.total_p99_ns <= budget_ns),
    {
        self.total_p99_ns <= budget_ns
    }

    /// Recompute the integrity hash and compare. Detects a field edit unless
    /// the edited body collides under FNV-1a.
    pub fn verify(&self) -> (b: bool)
        ensures
            b == self.spec_verifies(),
    {
        let body = self.canonical_body();
        fnv1a(body.as_str().as_bytes()) == self.integrity
    }

    fn push_body_open(&self, out: &mut String)
        ensures
            final(out)@ == old(out)@ + body_open(
                self.hardware_tier@,
                self.total_p99_ns,
                self.planner_overhead_ns,
                self.valid_until,
                stages_view(self.stages@),
            ),
    {
        let ghost start = out@;
        let ghost sv = stages_view(self.stages@);
        string_push(out, '{');
        out.append("\"hardware_tier\":");
        push_json_str(out, self.hardware_tier.as_str());
        out.append(",\"total_p99_ns\":");
        push_u64_dec(out, self.total_p99_ns);
        out.append(",\"planner_overhead_ns\":");
        push_u64_dec(out, self.planner_overhead_ns);
        out.append(",\"valid_until\":");
        push_i64_dec(out, self.valid_until);
        out.append(",\"stages\":[");
        let ghost mid = out@;
        for i in 0..self.stages.len()
            invariant
                sv == stages_view(self.stages@),
                out@ == mid + stages_json(sv.take(i as int)),
        {
            let ghost before = out@;
            if i > 0 {
                string_push(out, ',');
            }
            let s = &self.stages[i];
            out.append("{\"recipe\":");
            push_json_str(out, s.recipe.as_str());
            out.append(",\"stage\":");
            push_json_str(out, s.stage.as_str());
            out.append(",\"p99_ns\":");
            push_u64_dec(out, s.p99_ns);
            string_push(out, '}');
            proof {
                let t = sv.take(i + 1);
                assert(t.drop_last() =~= sv.take(i as int));
                assert(t.last() == s@);
                if i == 0 {
                    assert(out@ =~= before + stage_json(s@));
                    assert(t =~= seq![s@]);
                } else {
                    assert(out@ =~= before + seq![','] + stage_json(s@));
                }
            }
        }
        assert(sv.take(self.stages.len() as int) =~= sv);
        string_push(out, ']');
        assert(out@ =~= start + body_open(
            self.hardware_tier@,
            self.total_p99_ns,
            self.planner_overhead_ns,
            self.valid_until,
            sv,
        ));
    }

    /// The canonical JSON of every field except `integrity` - the bytes the
    /// hash is taken over.
    fn canonical_body(&self) -> (s: String)
        ensures
            s@ == self.spec_body(),
    {
        let mut out = String::new();
        self.push_body_open(&mut out);
        string_push(&mut out, '}');
        assert(out@ =~= self.spec_body());
        out
    }

    /// Full certificate JSON, including the integrity hash.
    pub fn to_json(&self) -> (s: String)
        ensures
            s@ == self.spec_json(),
    {
        let mut out = String::new();
        self.push_body_open(&mut out);
        out.append(",\"integrity\":");
        push_u64_dec(&mut out, self.integrity);
        string_push(&mut out, '}');
        assert(out@ =~= self.spec_json());
        out
    }
}


/// Equal concatenations with equal-length fronts have equal fronts and
/// equal backs.
proof fn lemma_split_equal(a: Seq<char>, x: Seq<char>, b: Seq<char>, y: Seq<char>)
    requires
        a + x == b + y,
        a.len() == b.len(),
    ensures
        a == b,
        x == y,
{
    assert(a =~= (a + x).subrange(0, a.len() as int));
    assert(b =~= (b + y).subrange(0, b.len() as int));
    assert(x =~= (a + x).subrange(a.len() as int, (a + x).len() as int));
    assert(y =~= (b + y).subrange(b.len() as int, (b + y).len() as int));
}

/// A JSON escape never starts with a double quote.
proof fn lemma_escape_head(c: char)
    ensures
        json_escape_char(c).len() > 0,
        json_escape_char(c)[0] != '"',
{
}

/// One escaped character reads back unambiguously from the front.
proof fn lemma_escape_prefix(c1: char, x: Seq<char>, c2: char, y: Seq<char>)
    requires
        json_escape_char(c1) + x == json_escape_char(c2) + y,
    ensures
        c1 == c2,
        x == y,
{
    let e1 = json_escape_char(c1);
    let e2 = json_escape_char(c2);
    assert((e1 + x)[0] == e1[0]);
    assert((e2 + y)[0] == e2[0]);
    if e1.len() == e2.len() {
        lemma_split_equal(e1, x, e2, y);
        if e1.len() == 2 {
            assert(e1[1] == e2[1]);
        } else {
            assert(e1[0] == e2[0]);
        }
    } else {
        assert(e1[0] == e2[0]);
    }
}

/// The escaped text of `s`, read from the front.
proof fn lemma_escaped_front(s: Seq<char>)
    requires
        s.len() > 0,
    ensures
        json_escaped(s) == json_escape_char(s[0]) + json_escaped(s.drop_first()),
    decreases s.len(),
{
    if s.len() == 1 {
        assert(s.drop_last() =~= Seq::<char>::empty());
        assert(s.drop_first() =~= Seq::<char>::empty());
        assert(json_escaped(s.drop_last()) =~= Seq::<char>::empty());
        assert(s.last() == s[0]);
        assert(json_escaped(s) =~= json_escape_char(s[0]));
    } else {
        lemma_escaped_front(s.drop_last());
        assert(s.drop_last().drop_first() =~= s.drop_first().drop_last());
        assert(s.drop_first().last() == s.last());
        assert(s.drop_last()[0] == s[0]);
        assert(json_escaped(s) =~= json_escape_char(s[0]) + json_escaped(s.drop_first()));
    }
}

/// The escaped body of a JSON string ends at its first unescaped quote.
proof fn lemma_escaped_prefix(s1: Seq<char>, x: Seq<char>, s2: Seq<char>, y: Seq<char>)
    requires
        json_escaped(s1) + (seq!['"'] + x) == json_escaped(s2) + (seq!['"'] + y),
    ensures
        s1 == s2,
        x == y,
    decreases s1.len() + s2.len(),
{
    let q = seq!['"'];
    if s1.len() == 0 && s2.len() == 0 {
        assert(json_escaped(s1) =~= Seq::<char>::empty());
        assert(json_escaped(s2) =~= Seq::<char>::empty());
        assert(q + x =~= json_escaped(s1) + (q + x));
        assert(q + y =~= json_escaped(s2) + (q + y));
        lemma_split_equal(q, x, q, y);
        assert(s1 =~= s2);
    } else if s1.len() == 0 {
        lemma_escaped_front(s2);
        lemma_escape_head(s2[0]);
        assert(json_escaped(s1) =~= Seq::<char>::empty());
        let e = json_escape_char(s2[0]);
        assert((json_escaped(s2) + (q + y))[0] == e[0]);
        assert((json_escaped(s1) + (q + x))[0] == '"');
    } else if s2.len() == 0 {
        lemma_escaped_front(s1);
        lemma_escape_head(s1[0]);
        assert(json_escaped(s2) =~= Seq::<char>::empty());
        let e = json_escape_char(s1[0]);
        assert((json_escaped(s1) + (q + x))[0] == e[0]);
        assert((json_escaped(s2) + (q + y))[0] == '"');
    } else {
        lemma_escaped_front(s1);
        lemma_escaped_front(s2);
        let t1 = s1.drop_first();
        let t2 = s2.drop_first();
        let r1 = json_escaped(t1) + (q + x);
        let r2 = json_escaped(t2) + (q + y);
        assert(json_escaped(s1) + (q + x) =~= json_escape_char(s1[0]) + r1);
        assert(json_escaped(s2) + (q + y) =~= json_escape_char(s2[0]) + r2);
        lemma_escape_prefix(s1[0], r1, s2[0], r2);
        lemma_escaped_prefix(t1, x, t2, y);
        assert(s1 =~= seq![s1[0]] + t1);
        assert(s2 =~= seq![s2[0]] + t2);
    }
}

/// A JSON string literal reads back unambiguously from the front.
proof fn lemma_quoted_prefix(s1: Seq<char>, x: Seq<char>, s2: Seq<char>, y: Seq<char>)
    requires
        json_quoted(s1) + x == json_quoted(s2) + y,
    ensures
        s1 == s2,
        x == y,
{
    let q = seq!['"'];
    let r1 = json_escaped(s1) + (q + x);
    let r2 = json_escaped(s2) + (q + y);
    assert(json_quoted(s1) + x =~= q + r1);
    assert(json_quoted(s2) + y =~= q + r2);
    lemma_split_equal(q, r1, q, r2);
    lemma_escaped_prefix(s1, x, s2, y);
}

/// A decimal numeral followed by a non-digit reads back unambiguously.
proof fn lemma_dec_nat_prefix(a: nat, x: Seq<char>, b: nat, y: Seq<char>)
    requires
        dec_nat(a) + x == dec_nat(b) + y,
        x.len() > 0,
        y.len() > 0,
        !('0' <= x[0] <= '9'),
        !('0' <= y[0] <= '9'),
    ensures
        a == b,
        x == y,
{
    let da = dec_nat(a);
    let db = dec_nat(b);
    lemma_dec_nat_reads_back(a);
    lemma_dec_nat_reads_back(b);
    if da.len() < db.len() {
        assert((da + x)[da.len() as int] == x[0]);
        assert((db + y)[da.len() as int] == db[da.len() as int]);
    } else if db.len() < da.len() {
        assert((db + y)[db.len() as int] == y[0]);
        assert((da + x)[db.len() as int] == da[db.len() as int]);
    } else {
        lemma_split_equal(da, x, db, y);
    }
}

/// A signed decimal numeral followed by a non-digit reads back
/// unambiguously.
proof fn lemma_dec_int_prefix(a: int, x: Seq<char>, b: int, y: Seq<char>)
    requires
        dec_int(a) + x == dec_int(b) + y,
        x.len() > 0,
        y.len() > 0,
        !('0' <= x[0] <= '9'),
        !('0' <= y[0] <= '9'),
    ensures
        a == b,
        x == y,
{
    let m = seq!['-'];
    if a < 0 && b < 0 {
        let r1 = dec_nat((-a) as nat) + x;
        let r2 = dec_nat((-b) as nat) + y;
        assert(dec_int(a) + x =~= m + r1);
        assert(dec_int(b) + y =~= m + r2);
        lemma_split_equal(m, r1, m, r2);
        lemma_dec_nat_prefix((-a) as nat, x, (-b) as nat, y);
    } else if a < 0 {
        lemma_dec_nat_reads_back(b as nat);
        assert((dec_int(a) + x)[0] == '-');
        assert((dec_int(b) + y)[0] == dec_nat(b as nat)[0]);
    } else if b < 0 {
        lemma_dec_nat_reads_back(a as nat);
        assert((dec_int(b) + y)[0] == '-');
        assert((dec_int(a) + x)[0] == dec_nat(a as nat)[0]);
    } else {
        lemma_dec_nat_prefix(a as nat, x, b as nat, y);
    }
}

/// One stage's JSON object reads back unambiguously from the front.
proof fn lemma_stage_prefix(a: StageView, x: Seq<char>, b: StageView, y: Seq<char>)
    requires
        stage_json(a) + x == stage_json(b) + y,
    ensures
        a == b,
        x == y,
{
    let k1 = "{\"recipe\":"@;
    let k2 = ",\"stage\":"@;
    let k3 = ",\"p99_ns\":"@;
    let cb = seq!['}'];
    let t1 = dec_nat(a.2 as nat) + (cb + x);
    let t2 = dec_nat(b.2 as nat) + (cb + y);
    let u1 = json_quoted(a.1) + (k3 + t1);
    let u2 = json_quoted(b.1) + (k3 + t2);
    let v1 = json_quoted(a.0) + (k2 + u1);
    let v2 = json_quoted(b.0) + (k2 + u2);
    assert(stage_json(a) + x =~= k1 + v1);
    assert(stage_json(b) + y =~= k1 + v2);
    lemma_split_equal(k1, v1, k1, v2);
    lemma_quoted_prefix(a.0, k2 + u1, b.0, k2 + u2);
    lemma_split_equal(k2, u1, k2, u2);
    lemma_quoted_prefix(a.1, k3 + t1, b.1, k3 + t2);
    lemma_split_equal(k3, t1, k3, t2);
    lemma_dec_nat_prefix(a.2 as nat, cb + x, b.2 as nat, cb + y);
    lemma_split_equal(cb, x, cb, y);
}

/// The stages' JSON, read from the front: the first object, then a comma
/// and the rest when there is more.
proof fn lemma_stages_front(st: Seq<StageView>)
    requires
        st.len() > 0,
    ensures
        st.len() == 1 ==> stages_json(st) == stage_json(st[0]),
        st.len() > 1 ==> stages_json(st) == stage_json(st[0]) + (seq![','] + stages_json(
            st.drop_first(),
        )),
    decreases st.len(),
{
    if st.len() > 1 {
        let d = st.drop_last();
        lemma_stages_front(d);
        assert(d[0] == st[0]);
        assert(st.drop_first().last() == st.last());
        if st.len() == 2 {
            assert(st.drop_first() =~= seq![st.last()]);
            assert(stages_json(st.drop_first()) == stage_json(st.last()));
            assert(stages_json(st) =~= stage_json(st[0]) + (seq![','] + stages_json(
                st.drop_first(),
            )));
        } else {
            assert(d.drop_first() =~= st.drop_first().drop_last());
            assert(stages_json(st) =~= stage_json(st[0]) + (seq![','] + stages_json(
                st.drop_first(),
            )));
        }
    }
}

/// The stages' JSON determines the stages.
proof fn lemma_stages_injective(s1: Seq<StageView>, s2: Seq<StageView>)
    requires
        stages_json(s1) == stages_json(s2),
    ensures
        s1 == s2,
    decreases s1.len(),
{
    if s1.len() == 0 || s2.len() == 0 {
        if s1.len() > 0 {
            lemma_stages_front(s1);
            assert(stage_json(s1[0]).len() > 0);
            assert(stages_json(s1).len() > 0);
        }
        if s2.len() > 0 {
            lemma_stages_front(s2);
            assert(stage_json(s2[0]).len() > 0);
            assert(stages_json(s2).len() > 0);
        }
        assert(s1 =~= s2);
    } else {
        lemma_stages_front(s1);
        lemma_stages_front(s2);
        let c = seq![','];
        let r1 = if s1.len() == 1 {
            Seq::<char>::empty()
        } else {
            c + stages_json(s1.drop_first())
        };
        let r2 = if s2.len() == 1 {
            Seq::<char>::empty()
        } else {
            c + stages_json(s2.drop_first())
        };
        assert(stages_json(s1) =~= stage_json(s1[0]) + r1);
        assert(stages_json(s2) =~= stage_json(s2[0]) + r2);
        lemma_stage_prefix(s1[0], r1, s2[0], r2);
        if s1.len() == 1 && s2.len() == 1 {
            assert(s1 =~= s2);
        } else if s1.len() == 1 {
            assert(r2.len() > 0);
        } else if s2.len() == 1 {
            assert(r1.len() > 0);
        } else {
            lemma_split_equal(c, stages_json(s1.drop_first()), c, stages_json(s2.drop_first()));
            lemma_stages_injective(s1.drop_first(), s2.drop_first());
            assert(s1 =~= seq![s1[0]] + s1.drop_first());
            assert(s2 =~= seq![s2[0]] + s2.drop_first());
        }
    }
}

/// The hashed bytes determine every field they cover: two certificates
/// whose canonical bodies encode to the same UTF-8 bytes agree on the
/// hardware tier, the composed p99, the planner overhead, the expiry and
/// the stages. So editing any one of these fields of a certificate changes
/// the bytes its integrity hash is taken over, and the edited certificate
/// verifies only if the two byte strings collide under FNV-1a.
pub proof fn lemma_hashed_bytes_determine_fields(a: TsLatencyCertificate, b: TsLatencyCertificate)
    requires
        vstd::utf8::encode_utf8(a.spec_body()) == vstd::utf8::encode_utf8(b.spec_body()),
    ensures
        a.hardware_tier@ == b.hardware_tier@,
        a.total_p99_ns == b.total_p99_ns,
        a.planner_overhead_ns == b.planner_overhead_ns,
        a.valid_until == b.valid_until,
        stages_view(a.stages@) == stages_view(b.stages@),
{
    vstd::utf8::encode_utf8_decode_utf8(a.spec_body());
    vstd::utf8::encode_utf8_decode_utf8(b.spec_body());
    lemma_body_determines_fields(a, b);
}

/// The canonical body with its pieces grouped from the right.
spec fn body_chain(
    tier: Seq<char>,
    total: u64,
    overhead: u64,
    valid_until: i64,
    stages: Seq<StageView>,
) -> Seq<char> {
    let e = stages_json(stages) + seq![']', '}'];
    let d = dec_int(valid_until as int) + (",\"stages\":["@ + e);
    let c = dec_nat(overhead as nat) + (",\"valid_until\":"@ + d);
    let b = dec_nat(total as nat) + (",\"planner_overhead_ns\":"@ + c);
    let a = json_quoted(tier) + (",\"total_p99_ns\":"@ + b);
    (seq!['{'] + "\"hardware_tier\":"@) + a
}

#[verifier::rlimit(40)]
proof fn lemma_body_chain(c: TsLatencyCertificate)
    ensures
        c.spec_body() == body_chain(
            c.hardware_tier@,
            c.total_p99_ns,
            c.planner_overhead_ns,
            c.valid_until,
            stages_view(c.stages@),
        ),
{
    assert(c.spec_body() =~= body_chain(
        c.hardware_tier@,
        c.total_p99_ns,
        c.planner_overhead_ns,
        c.valid_until,
        stages_view(c.stages@),
    ));
}

/// The keys after a number in the body start with a comma.
proof fn lemma_key_heads()
    ensures
        ",\"planner_overhead_ns\":"@.len() > 0 && ",\"planner_overhead_ns\":"@[0] == ',',
        ",\"valid_until\":"@.len() > 0 && ",\"valid_until\":"@[0] == ',',
        ",\"stages\":["@.len() > 0 && ",\"stages\":["@[0] == ',',
{
    reveal_strlit(",\"planner_overhead_ns\":");
    reveal_strlit(",\"valid_until\":");
    reveal_strlit(",\"stages\":[");
}

/// The canonical body determines every field it covers: two certificates
/// with the same canonical body agree on the hardware tier, the composed
/// p99, the planner overhead, the expiry and the stages.
pub proof fn lemma_body_determines_fields(a: TsLatencyCertificate, b: TsLatencyCertificate)
    requires
        a.spec_body() == b.spec_body(),
    ensures
        a.hardware_tier@ == b.hardware_tier@,
        a.total_p99_ns == b.total_p99_ns,
        a.planner_overhead_ns == b.planner_overhead_ns,
        a.valid_until == b.valid_until,
        stages_view(a.stages@) == stages_view(b.stages@),
{
    let k0 = seq!['{'] + "\"hardware_tier\":"@;
    let k1 = ",\"total_p99_ns\":"@;
    let k2 = ",\"planner_overhead_ns\":"@;
    let k3 = ",\"valid_until\":"@;
    let k4 = ",\"stages\":["@;
    lemma_key_heads();
    let close = seq![']', '}'];
    let sa = stages_view(a.stages@);
    let sb = stages_view(b.stages@);
    let e1 = stages_json(sa) + close;
    let e2 = stages_json(sb) + close;
    let d1 = dec_int(a.valid_until as int) + (k4 + e1);
    let d2 = dec_int(b.valid_until as int) + (k4 + e2);
    let c1 = dec_nat(a.planner_overhead_ns as nat) + (k3 + d1);
    let c2 = dec_nat(b.planner_overhead_ns as nat) + (k3 + d2);
    let b1 = dec_nat(a.total_p99_ns as nat) + (k2 + c1);
    let b2 = dec_nat(b.total_p99_ns as nat) + (k2 + c2);
    let a1 = json_quoted(a.hardware_tier@) + (k1 + b1);
    let a2 = json_quoted(b.hardware_tier@) + (k1 + b2);
    lemma_body_chain(a);
    lemma_body_chain(b);
    assert(k0 + a1 == k0 + a2);
    lemma_split_equal(k0, a1, k0, a2);
    lemma_quoted_prefix(a.hardware_tier@, k1 + b1, b.hardware_tier@, k1 + b2);
    lemma_split_equal(k1, b1, k1, b2);
    assert((k2 + c1)[0] == ',');
    assert((k2 + c2)[0] == ',');
    lemma_dec_nat_prefix(a.total_p99_ns as nat, k2 + c1, b.total_p99_ns as nat, k2 + c2);
    lemma_split_equal(k2, c1, k2, c2);
    assert((k3 + d1)[0] == ',');
    assert((k3 + d2)[0] == ',');
    lemma_dec_nat_prefix(
        a.planner_overhead_ns as nat,
        k3 + d1,
        b.planner_overhead_ns as nat,
        k3 + d2,
    );
    lemma_split_equal(k3, d1, k3, d2);
    assert((k4 + e1)[0] == ',');
    assert((k4 + e2)[0] == ',');
    lemma_dec_int_prefix(a.valid_until as int, k4 + e1, b.valid_until as int, k4 + e2);
    lemma_split_equal(k4, e1, k4, e2);
    assert(stages_json(sa) =~= e1.subrange(0, e1.len() - 2));
    assert(stages_json(sb) =~= e2.subrange(0, e2.len() - 2));
    lemma_stages_injective(sa, sb);
}

} // verus!
