//! The label side of evaluating a query over a [`TsCollection`]: which
//! series a selector resolves to and in what order, the label set a sample
//! carries, the groups an aggregation forms, how two vectors pair up, and
//! the instants a range evaluation steps through. The arithmetic on sample
//! values is left to the caller.
//!
//! A selector's bare metric matches the reserved label [`METRIC_LABEL`]
//! when a series carries it, else the series' metadata `name`; this lets
//! many series share one metric name inside one collection.

use vstd::prelude::*;

use crate::collection::{Entry, TsCollection};
use crate::meta::{EntriesView, TsSeriesMetadata, TsTags};
use crate::promql::{matcher_accepts, Grouping, Selector, TsPromQlError};
use crate::series::TsSeries;
use crate::text::{key_lt, lemma_key_lt_transitive, lemma_key_lt_trichotomy, str_eq, str_key_lt};

verus! {

/// The reserved label that carries a series' metric name.
pub const METRIC_LABEL: &'static str = "__name__";

// ---------- range evaluation instants ----------

/// The instants of a range evaluation: `start`, `start + step`, ... up to
/// `end`. `step` must be positive and `start <= end`; otherwise it is an
/// `Eval` error.
pub fn range_steps(start: i64, end: i64, step: i64) -> (r: Result<Vec<i64>, TsPromQlError>)
    ensures
        match r {
            Ok(v) => {
                &&& step > 0 && start <= end
                &&& v@.len() > 0
                &&& forall|k: int| 0 <= k < v@.len() ==> #[trigger] v@[k] == start + k * step
                &&& v@.last() <= end < v@.last() + step
            },
            Err(e) => e is Eval && (step <= 0 || start > end),
        },
{
    if step <= 0 {
        return Err(TsPromQlError::Eval("range step must be positive".to_string()));
    }
    if start > end {
        return Err(TsPromQlError::Eval("range start is after end".to_string()));
    }
    let mut out: Vec<i64> = Vec::new();
    let mut at = start;
    assert(start + out@.len() * step == start) by (nonlinear_arith)
        requires
            out@.len() == 0,
    ;
    loop
        invariant_except_break
            at <= end,
            at == start + out@.len() * step,
        invariant
            step > 0,
            start <= end,
            forall|k: int| 0 <= k < out@.len() ==> #[trigger] out@[k] == start + k * step,
        ensures
            out@.len() > 0,
            out@.last() <= end < out@.last() + step,
        decreases end - at,
    {
        let ghost k0 = out@.len();
        out.push(at);
        proof {
            assert(out@.last() == at);
            assert(start + (k0 + 1) * step == start + k0 * step + step) by (nonlinear_arith);
        }
        match at.checked_add(step) {
            Some(next) => {
                if next > end {
                    break;
                }
                at = next;
            },
            None => {
                break;
            },
        }
    }
    Ok(out)
}

// ---------- selector resolution ----------

/// The value bound to label `k`.
pub open spec fn tag_value(m: TsSeriesMetadata, k: Seq<char>) -> Option<Seq<char>> {
    if m.tags.spec_map().contains_key(k) {
        Some(m.tags.spec_map()[k])
    } else {
        None
    }
}

/// A series' metric: its [`METRIC_LABEL`] when present, else its name.
pub open spec fn metric_of(m: TsSeriesMetadata) -> Seq<char> {
    match tag_value(m, METRIC_LABEL@) {
        Some(v) => v,
        None => m.name@,
    }
}

/// Does a series with metadata `m` satisfy the selector: the metric
/// matches and every label matcher accepts the series' value for its label?
pub open spec fn selects(sel: Selector, m: TsSeriesMetadata) -> bool {
    &&& metric_of(m) == sel.metric@
    &&& forall|i: int|
        0 <= i < sel.matchers@.len() ==> #[trigger] matcher_accepts(
            sel.matchers@[i],
            tag_value(m, sel.matchers@[i].label@),
        )
}

/// An entry the selector resolves to (it must carry metadata).
pub open spec fn entry_selected<T>(e: Entry<T>, sel: Selector) -> bool {
    e.1.spec_meta() matches Some(m) && selects(sel, m)
}

/// The metadata id an entry is ordered by.
pub open spec fn entry_rank<T>(e: Entry<T>) -> u64 {
    e.1.spec_meta()->0.id
}

/// Does the selector accept a series with metadata `m`?
pub fn selects_exec(sel: &Selector, m: &TsSeriesMetadata) -> (b: bool)
    ensures
        b == selects(*sel, *m),
{
    let metric_ok = match m.tags.get(METRIC_LABEL) {
        Some(v) => str_eq(v.as_str(), sel.metric.as_str()),
        None => str_eq(m.name.as_str(), sel.metric.as_str()),
    };
    if !metric_ok {
        return false;
    }
    let n = sel.matchers.len();
    let mut i: usize = 0;
    while i < n
        invariant
            i <= n == sel.matchers@.len(),
            forall|j: int|
                0 <= j < i ==> #[trigger] matcher_accepts(
                    sel.matchers@[j],
                    tag_value(*m, sel.matchers@[j].label@),
                ),
        decreases n - i,
    {
        let mt = &sel.matchers[i];
        let v: Option<&str> = match m.tags.get(mt.label.as_str()) {
            Some(s) => Some(s.as_str()),
            None => None,
        };
        if !mt.matches(v) {
            assert(!matcher_accepts(sel.matchers@[i as int], tag_value(*m, sel.matchers@[i as int].label@)));
            return false;
        }
        i = i + 1;
    }
    true
}

/// The positions (in registration order, as [`TsCollection::series`] lists
/// them) of the series the selector resolves to, ordered by metadata id,
/// ties in registration order. Series without metadata never match.
pub fn select_series<T: Clone>(coll: &TsCollection<T>, sel: &Selector) -> (r: Vec<usize>)
    ensures
        forall|a: int|
            #![trigger r@[a]]
            0 <= a < r@.len() ==> r@[a] < coll.entries().len() && entry_selected(
                coll.entries()[r@[a] as int],
                *sel,
            ),
        forall|k: int|
            0 <= k < coll.entries().len() && entry_selected(coll.entries()[k], *sel) ==> r@.contains(
                k as usize,
            ),
        forall|a: int, b: int|
            #![trigger r@[a], r@[b]]
            0 <= a < b < r@.len() ==> entry_rank(coll.entries()[r@[a] as int]) < entry_rank(
                coll.entries()[r@[b] as int],
            ) || (entry_rank(coll.entries()[r@[a] as int]) == entry_rank(
                coll.entries()[r@[b] as int],
            ) && r@[a] < r@[b]),
{
    let all = coll.series();
    let ghost es = coll.entries();
    assert(all@.len() == es.len()) by {
        assert(all@.map_values(|s: &TsSeries<T>| *s).len() == all@.len());
    }
    let n = all.len();
    let mut out: Vec<usize> = Vec::new();
    let mut ranks: Vec<u64> = Vec::new();
    let mut i: usize = 0;
    while i < n
        invariant
            i <= n == all@.len() == es.len(),
            es == coll.entries(),
            all@.map_values(|s: &TsSeries<T>| *s) == es.map_values(|e: Entry<T>| e.1),
            ranks@.len() == out@.len(),
            forall|a: int|
                #![trigger out@[a]]
                0 <= a < out@.len() ==> out@[a] < i && entry_selected(es[out@[a] as int], *sel)
                    && ranks@[a] == entry_rank(es[out@[a] as int]),
            forall|k: int| 0 <= k < i && entry_selected(es[k], *sel) ==> out@.contains(k as usize),
            forall|a: int, b: int|
                0 <= a < b < out@.len() ==> ranks@[a] < ranks@[b] || (ranks@[a] == ranks@[b]
                    && out@[a] < out@[b]),
        decreases n - i,
    {
        assert(*all@[i as int] == es[i as int].1) by {
            assert(all@.map_values(|s: &TsSeries<T>| *s)[i as int] == es.map_values(
                |e: Entry<T>| e.1,
            )[i as int]);
        }
        match all[i].metadata() {
            Some(m) => {
                if selects_exec(sel, m) {
                    let r = m.id;
                    let mut pos: usize = 0;
                    while pos < ranks.len() && ranks[pos] <= r
                        invariant
                            pos <= ranks@.len(),
                            forall|a: int| 0 <= a < pos ==> ranks@[a] <= r,
                        decreases ranks@.len() - pos,
                    {
                        pos = pos + 1;
                    }
                    let ghost o1 = out@;
                    let ghost r1 = ranks@;
                    out.insert(pos, i);
                    ranks.insert(pos, r);
                    proof {
                        assert(out@ == o1.insert(pos as int, i));
                        assert(ranks@ == r1.insert(pos as int, r));
                        assert(entry_selected(es[i as int], *sel));
                        assert(r == entry_rank(es[i as int]));
                        assert forall|a: int|
                            #![trigger out@[a]]
                            0 <= a < out@.len() implies out@[a] < i + 1
                            && entry_selected(es[out@[a] as int], *sel) && ranks@[a] == entry_rank(
                            es[out@[a] as int],
                        ) by {
                            if a < pos {
                                assert(out@[a] == o1[a] && ranks@[a] == r1[a]);
                            } else if a > pos {
                                assert(out@[a] == o1[a - 1] && ranks@[a] == r1[a - 1]);
                            }
                        }
                        assert forall|a: int, b: int| 0 <= a < b < out@.len() implies ranks@[a]
                            < ranks@[b] || (ranks@[a] == ranks@[b] && out@[a] < out@[b]) by {
                            if a < pos && b < pos {
                                assert(ranks@[a] == r1[a] && ranks@[b] == r1[b]);
                            } else if a < pos && b == pos {
                                assert(r1[a] <= r);
                            } else if a < pos {
                                assert(ranks@[b] == r1[b - 1]);
                                if pos < r1.len() {
                                    assert(!(r1[pos as int] <= r));
                                }
                                if b - 1 > pos {
                                    assert(r1[pos as int] < r1[b - 1] || r1[pos as int] == r1[b
                                        - 1]);
                                }
                            } else if a == pos {
                                assert(ranks@[b] == r1[b - 1]);
                                assert(!(r1[pos as int] <= r));
                                if b - 1 > pos {
                                    assert(r1[pos as int] < r1[b - 1] || r1[pos as int] == r1[b
                                        - 1]);
                                }
                            } else {
                                assert(ranks@[a] == r1[a - 1] && ranks@[b] == r1[b - 1]);
                                assert(out@[a] == o1[a - 1] && out@[b] == o1[b - 1]);
                            }
                        }
                        assert forall|k: int|
                            0 <= k < i + 1 && entry_selected(es[k], *sel) implies out@.contains(
                            k as usize,
                        ) by {
                            if k < i {
                                let a = choose|a: int| 0 <= a < o1.len() && o1[a] == k as usize;
                                if a < pos {
                                    assert(out@[a] == k as usize);
                                } else {
                                    assert(out@[a + 1] == k as usize);
                                }
                            } else {
                                assert(out@[pos as int] == i);
                            }
                        }
                    }
                } else {
                    proof {
                        assert forall|k: int|
                            0 <= k < i + 1 && entry_selected(es[k], *sel) implies out@.contains(
                            k as usize,
                        ) by {
                            if k == i {
                                assert(!entry_selected(es[k], *sel));
                            }
                        }
                    }
                }
            },
            None => {
                proof {
                    assert forall|k: int|
                        0 <= k < i + 1 && entry_selected(es[k], *sel) implies out@.contains(
                        k as usize,
                    ) by {
                        if k == i {
                            assert(!entry_selected(es[k], *sel));
                        }
                    }
                }
            },
        }
        i = i + 1;
    }
    out
}

/// The label set a selected series' samples carry: its tags without the
/// reserved [`METRIC_LABEL`].
pub fn output_labels(tags: &TsTags) -> (t: TsTags)
    ensures
        t.spec_map() == tags.spec_map().remove(METRIC_LABEL@),
{
    let mut t = tags.clone();
    t.remove(METRIC_LABEL);
    t
}

// ---------- aggregation groups ----------

/// The label names a grouping list holds.
pub open spec fn name_set(names: Seq<String>) -> Set<Seq<char>> {
    names.map_values(|s: String| s@).to_set()
}

/// The labels that survive a grouping: none for a plain aggregation, the
/// named ones (those present) for `by`, all but the named ones for
/// `without`.
pub open spec fn group_map(labels: Map<Seq<char>, Seq<char>>, g: Grouping) -> Map<
    Seq<char>,
    Seq<char>,
> {
    match g {
        Grouping::All => Map::empty(),
        Grouping::By(keep) => labels.restrict(name_set(keep@)),
        Grouping::Without(drop) => labels.remove_keys(name_set(drop@)),
    }
}

/// The group key of a sample's labels under `grouping`.
pub fn group_key(labels: &TsTags, grouping: &Grouping) -> (t: TsTags)
    ensures
        t.spec_map() == group_map(labels.spec_map(), *grouping),
{
    match grouping {
        Grouping::All => TsTags::new(),
        Grouping::By(keep) => {
            let mut out = TsTags::new();
            let n = keep.len();
            let mut i: usize = 0;
            assert(labels.spec_map().restrict(name_set(keep@.take(0))) =~= Map::empty());
            while i < n
                invariant
                    i <= n == keep@.len(),
                    out.spec_map() == labels.spec_map().restrict(name_set(keep@.take(i as int))),
                decreases n - i,
            {
                let k = &keep[i];
                let ghost before = name_set(keep@.take(i as int));
                assert(name_set(keep@.take(i + 1)) =~= before.insert(k@)) by {
                    assert(keep@.take(i + 1) =~= keep@.take(i as int).push(*k));
                    assert(keep@.take(i + 1).map_values(|s: String| s@) =~= keep@.take(
                        i as int,
                    ).map_values(|s: String| s@).push(k@));
                    keep@.take(i as int).map_values(|s: String| s@).lemma_push_to_set_commute(k@);
                }
                match labels.get(k.as_str()) {
                    Some(v) => {
                        out.insert(k.clone(), v.clone());
                        assert(out.spec_map() =~= labels.spec_map().restrict(before.insert(k@)));
                    },
                    None => {
                        assert(out.spec_map() =~= labels.spec_map().restrict(before.insert(k@)));
                    },
                }
                i = i + 1;
            }
            assert(keep@.take(n as int) =~= keep@);
            out
        },
        Grouping::Without(drop) => {
            let mut out = labels.clone();
            let n = drop.len();
            let mut i: usize = 0;
            assert(labels.spec_map().remove_keys(name_set(drop@.take(0))) =~= labels.spec_map());
            while i < n
                invariant
                    i <= n == drop@.len(),
                    out.spec_map() == labels.spec_map().remove_keys(
                        name_set(drop@.take(i as int)),
                    ),
                decreases n - i,
            {
                let k = &drop[i];
                let ghost before = name_set(drop@.take(i as int));
                assert(name_set(drop@.take(i + 1)) =~= before.insert(k@)) by {
                    assert(drop@.take(i + 1) =~= drop@.take(i as int).push(*k));
                    assert(drop@.take(i + 1).map_values(|s: String| s@) =~= drop@.take(
                        i as int,
                    ).map_values(|s: String| s@).push(k@));
                    drop@.take(i as int).map_values(|s: String| s@).lemma_push_to_set_commute(k@);
                }
                out.remove(k.as_str());
                assert(out.spec_map() =~= labels.spec_map().remove_keys(before.insert(k@)));
                i = i + 1;
            }
            assert(drop@.take(n as int) =~= drop@);
            out
        },
    }
}

// ---------- vector matching ----------

/// Are two label sets the same (the same pairs in the same key order)?
pub fn same_labels(a: &TsTags, b: &TsTags) -> (r: bool)
    ensures
        r == (a.entries_view() == b.entries_view()),
{
    let ea = a.entries();
    let eb = b.entries();
    let ghost va = a.entries_view();
    let ghost vb = b.entries_view();
    assert(va.len() == ea@.len() && vb.len() == eb@.len());
    if ea.len() != eb.len() {
        return false;
    }
    let n = ea.len();
    let mut i: usize = 0;
    while i < n
        invariant
            i <= n == ea@.len() == eb@.len(),
            ea@.map_values(|e: (String, String)| (e.0@, e.1@)) == va,
            eb@.map_values(|e: (String, String)| (e.0@, e.1@)) == vb,
            forall|j: int| 0 <= j < i ==> #[trigger] va[j] == vb[j],
            va == a.entries_view(),
            vb == b.entries_view(),
        decreases n - i,
    {
        assert(va[i as int] == (ea@[i as int].0@, ea@[i as int].1@));
        assert(vb[i as int] == (eb@[i as int].0@, eb@[i as int].1@));
        if !str_eq(ea[i].0.as_str(), eb[i].0.as_str()) || !str_eq(
            ea[i].1.as_str(),
            eb[i].1.as_str(),
        ) {
            return false;
        }
        i = i + 1;
    }
    assert(va =~= vb);
    true
}

/// The last position in `rs` holding the label set `l`, if any.
pub open spec fn last_match(l: EntriesView, rs: Seq<EntriesView>, upto: int) -> Option<int>
    decreases upto,
{
    if upto <= 0 {
        None
    } else if rs[upto - 1] == l {
        Some(upto - 1)
    } else {
        last_match(l, rs, upto - 1)
    }
}

/// One-to-one matching of two vectors by their full label sets: for each
/// left sample (in order) that has a partner, the pair of positions; the
/// partner is the last right sample with the same label set.
pub open spec fn pairs_upto(ls: Seq<EntriesView>, rs: Seq<EntriesView>, i: int) -> Seq<(int, int)>
    decreases i,
{
    if i <= 0 {
        Seq::empty()
    } else {
        let prev = pairs_upto(ls, rs, i - 1);
        match last_match(ls[i - 1], rs, rs.len() as int) {
            Some(j) => prev.push((i - 1, j)),
            None => prev,
        }
    }
}

pub open spec fn label_views(v: Seq<TsTags>) -> Seq<EntriesView> {
    v.map_values(|t: TsTags| t.entries_view())
}

/// The positions of the matched pairs of two vectors' label sets, in the
/// order of the left vector.
pub fn vector_pairs(lhs: &Vec<TsTags>, rhs: &Vec<TsTags>) -> (r: Vec<(usize, usize)>)
    ensures
        r@.map_values(|p: (usize, usize)| (p.0 as int, p.1 as int)) == pairs_upto(
            label_views(lhs@),
            label_views(rhs@),
            lhs@.len() as int,
        ),
{
    let ghost ls = label_views(lhs@);
    let ghost rs = label_views(rhs@);
    let n = lhs.len();
    let m = rhs.len();
    let mut out: Vec<(usize, usize)> = Vec::new();
    let mut i: usize = 0;
    assert(out@.map_values(|p: (usize, usize)| (p.0 as int, p.1 as int)) =~= Seq::<
        (int, int),
    >::empty());
    while i < n
        invariant
            i <= n == lhs@.len() == ls.len(),
            m == rhs@.len() == rs.len(),
            ls == label_views(lhs@),
            rs == label_views(rhs@),
            out@.map_values(|p: (usize, usize)| (p.0 as int, p.1 as int)) == pairs_upto(
                ls,
                rs,
                i as int,
            ),
        decreases n - i,
    {
        let ghost prev = out@;
        let mut j = m;
        let mut found = false;
        while j > 0
            invariant_except_break
                j <= m,
                !found,
                last_match(ls[i as int], rs, m as int) == last_match(ls[i as int], rs, j as int),
            invariant
                i < n == lhs@.len() == ls.len(),
                m == rhs@.len() == rs.len(),
                ls == label_views(lhs@),
                rs == label_views(rhs@),
            ensures
                found ==> 0 < j <= m && last_match(ls[i as int], rs, m as int) == Some(j - 1),
                !found ==> last_match(ls[i as int], rs, m as int) is None,
            decreases j,
        {
            assert(rs[j - 1] == rhs@[j - 1].entries_view());
            assert(ls[i as int] == lhs@[i as int].entries_view());
            if same_labels(&rhs[j - 1], &lhs[i]) {
                found = true;
                break;
            }
            j = j - 1;
        }
        if found {
            out.push((i, j - 1));
            assert(out@.map_values(|p: (usize, usize)| (p.0 as int, p.1 as int)) =~= prev.map_values(
                |p: (usize, usize)| (p.0 as int, p.1 as int),
            ).push((i as int, j - 1)));
        }
        i = i + 1;
    }
    out
}

// ---------- ordering of label sets ----------

/// Order of two label pairs: by key, then by value (byte order of each).
pub open spec fn pair_lt(a: (Seq<char>, Seq<char>), b: (Seq<char>, Seq<char>)) -> bool {
    key_lt(a.0, b.0) || (a.0 == b.0 && key_lt(a.1, b.1))
}

/// Lexicographic order of two label sets' pair lists (a proper prefix comes
/// first): the order groups of an aggregation come out in.
pub open spec fn entries_lt(a: EntriesView, b: EntriesView) -> bool
    decreases a.len(),
{
    if a.len() == 0 {
        b.len() > 0
    } else if b.len() == 0 {
        false
    } else if a[0] != b[0] {
        pair_lt(a[0], b[0])
    } else {
        entries_lt(a.skip(1), b.skip(1))
    }
}

proof fn lemma_pair_lt_order(a: (Seq<char>, Seq<char>), b: (Seq<char>, Seq<char>), c: (Seq<char>, Seq<char>))
    ensures
        a == b || pair_lt(a, b) || pair_lt(b, a),
        !(pair_lt(a, b) && pair_lt(b, a)),
        !pair_lt(a, a),
        pair_lt(a, b) && pair_lt(b, c) ==> pair_lt(a, c),
{
    lemma_key_lt_trichotomy(a.0, b.0);
    lemma_key_lt_trichotomy(a.1, b.1);
    lemma_key_lt_trichotomy(b.0, c.0);
    lemma_key_lt_trichotomy(a.0, c.0);
    lemma_key_lt_trichotomy(a.0, a.0);
    lemma_key_lt_trichotomy(a.1, a.1);
    if pair_lt(a, b) && pair_lt(b, c) {
        if key_lt(a.0, b.0) && key_lt(b.0, c.0) {
            lemma_key_lt_transitive(a.0, b.0, c.0);
        } else if a.0 == b.0 && b.0 == c.0 {
            lemma_key_lt_transitive(a.1, b.1, c.1);
        }
    }
}

/// `entries_lt` is total and asymmetric (so irreflexive).
pub proof fn lemma_entries_lt_total(a: EntriesView, b: EntriesView)
    ensures
        a == b || entries_lt(a, b) || entries_lt(b, a),
        !(entries_lt(a, b) && entries_lt(b, a)),
        !entries_lt(a, a),
    decreases a.len(),
{
    if a.len() > 0 && b.len() > 0 {
        lemma_pair_lt_order(a[0], b[0], a[0]);
        lemma_entries_lt_total(a.skip(1), b.skip(1));
        lemma_entries_lt_total(a.skip(1), a.skip(1));
        if a[0] == b[0] && a.skip(1) == b.skip(1) {
            assert(a =~= seq![a[0]] + a.skip(1));
            assert(b =~= seq![b[0]] + b.skip(1));
        }
    } else if a.len() > 0 {
        lemma_pair_lt_order(a[0], a[0], a[0]);
        lemma_entries_lt_total(a.skip(1), a.skip(1));
    } else if b.len() == 0 {
        assert(a =~= b);
    }
}

/// `entries_lt` is transitive.
pub proof fn lemma_entries_lt_transitive(a: EntriesView, b: EntriesView, c: EntriesView)
    requires
        entries_lt(a, b),
        entries_lt(b, c),
    ensures
        entries_lt(a, c),
    decreases a.len(),
{
    if a.len() > 0 {
        lemma_pair_lt_order(a[0], b[0], c[0]);
        lemma_pair_lt_order(a[0], c[0], a[0]);
        if a[0] == b[0] && b[0] == c[0] {
            lemma_entries_lt_transitive(a.skip(1), b.skip(1), c.skip(1));
        }
    }
}

/// Does label set `a` come before `b`?
pub fn labels_lt(a: &TsTags, b: &TsTags) -> (r: bool)
    ensures
        r == entries_lt(a.entries_view(), b.entries_view()),
{
    let ea = a.entries();
    let eb = b.entries();
    let ghost va = a.entries_view();
    let ghost vb = b.entries_view();
    assert(va.len() == ea@.len() && vb.len() == eb@.len());
    assert(va.skip(0) =~= va && vb.skip(0) =~= vb);
    let mut i: usize = 0;
    while i < ea.len() && i < eb.len()
        invariant
            i <= ea@.len(),
            i <= eb@.len(),
            ea@.map_values(|e: (String, String)| (e.0@, e.1@)) == va,
            eb@.map_values(|e: (String, String)| (e.0@, e.1@)) == vb,
            va == a.entries_view(),
            vb == b.entries_view(),
            entries_lt(va, vb) == entries_lt(va.skip(i as int), vb.skip(i as int)),
        decreases ea@.len() - i,
    {
        let ghost sa = va.skip(i as int);
        let ghost sb = vb.skip(i as int);
        assert(sa[0] == va[i as int] && va[i as int] == (ea@[i as int].0@, ea@[i as int].1@));
        assert(sb[0] == vb[i as int] && vb[i as int] == (eb@[i as int].0@, eb@[i as int].1@));
        let k_eq = str_eq(ea[i].0.as_str(), eb[i].0.as_str());
        let v_eq = str_eq(ea[i].1.as_str(), eb[i].1.as_str());
        if !(k_eq && v_eq) {
            let k_lt = str_key_lt(ea[i].0.as_str(), eb[i].0.as_str());
            let v_lt = str_key_lt(ea[i].1.as_str(), eb[i].1.as_str());
            return k_lt || (k_eq && v_lt);
        }
        assert(sa.skip(1) =~= va.skip(i + 1));
        assert(sb.skip(1) =~= vb.skip(i + 1));
        i = i + 1;
    }
    eb.len() > i
}

/// One group of an aggregation: its key labels and the positions of its
/// members, in input order.
pub struct TsGroup {
    pub labels: TsTags,
    pub members: Vec<usize>,
}

/// A group is well formed over the first `bound` keys: it has members, in
/// increasing order, each below `bound` and carrying the group's key.
pub open spec fn group_ok(g: TsGroup, keys: Seq<TsTags>, bound: int) -> bool {
    &&& g.members@.len() > 0
    &&& forall|a: int, b: int|
        0 <= a < b < g.members@.len() ==> #[trigger] g.members@[a] < #[trigger] g.members@[b]
    &&& forall|a: int|
        #![trigger g.members@[a]]
        0 <= a < g.members@.len() ==> g.members@[a] < bound && keys[g.members@[a] as int].entries_view()
            == g.labels.entries_view()
}

proof fn lemma_group_ok_mono(g: TsGroup, keys: Seq<TsTags>, b1: int, b2: int)
    requires
        group_ok(g, keys, b1),
        b1 <= b2,
    ensures
        group_ok(g, keys, b2),
{

}

proof fn lemma_group_ok_push(g: TsGroup, h: TsGroup, keys: Seq<TsTags>, j: usize)
    requires
        group_ok(g, keys, j as int),
        j < keys.len(),
        h.labels == g.labels,
        h.members@ == g.members@.push(j),
        keys[j as int].entries_view() == g.labels.entries_view(),
    ensures
        group_ok(h, keys, j + 1),
{
    let m = g.members@;
    let n = h.members@;
    assert forall|a: int|
        #![trigger h.members@[a]]
        0 <= a < n.len() implies h.members@[a] < j + 1 && keys[h.members@[a] as int].entries_view()
        == h.labels.entries_view() by {
        if a < m.len() {
            assert(h.members@[a] == g.members@[a]);
        }
    }
    assert forall|a: int, b: int| 0 <= a < b < n.len() implies #[trigger] h.members@[a]
        < #[trigger] h.members@[b] by {
        assert(h.members@[a] == g.members@[a]);
        if b < m.len() {
            assert(h.members@[b] == g.members@[b]);
        }
    }
}

/// Some group has key `k`.
pub open spec fn has_group(gs: Seq<TsGroup>, k: EntriesView) -> bool {
    exists|g: int| 0 <= g < gs.len() && gs[g].labels.entries_view() == k
}

/// Groups the samples whose group keys are `keys` by equal key: one group
/// per distinct key, in ascending key order, each listing its members in
/// input order.
pub fn group_plan(keys: &Vec<TsTags>) -> (r: Vec<TsGroup>)
    ensures
        forall|g: int| 0 <= g < r@.len() ==> group_ok(#[trigger] r@[g], keys@, keys@.len() as int),
        forall|k: int|
            0 <= k < keys@.len() ==> has_group(r@, #[trigger] keys@[k].entries_view()),
        forall|g: int, k: int|
            0 <= g < r@.len() && 0 <= k < keys@.len() && #[trigger] keys@[k].entries_view()
                == #[trigger] r@[g].labels.entries_view() ==> r@[g].members@.contains(k as usize),
        forall|g1: int, g2: int|
            0 <= g1 < g2 < r@.len() ==> entries_lt(
                #[trigger] r@[g1].labels.entries_view(),
                #[trigger] r@[g2].labels.entries_view(),
            ),
{
    let n = keys.len();
    let mut groups: Vec<TsGroup> = Vec::new();
    let mut j: usize = 0;
    while j < n
        invariant
            j <= n == keys@.len(),
            forall|g: int| 0 <= g < groups@.len() ==> group_ok(#[trigger] groups@[g], keys@, j as int),
            forall|k: int| 0 <= k < j ==> has_group(groups@, #[trigger] keys@[k].entries_view()),
            forall|g: int, k: int|
                0 <= g < groups@.len() && 0 <= k < j && #[trigger] keys@[k].entries_view()
                    == #[trigger] groups@[g].labels.entries_view() ==> groups@[g].members@.contains(
                    k as usize,
                ),
            forall|g1: int, g2: int|
                0 <= g1 < g2 < groups@.len() ==> entries_lt(
                    #[trigger] groups@[g1].labels.entries_view(),
                    #[trigger] groups@[g2].labels.entries_view(),
                ),
        decreases n - j,
    {
        let kj = &keys[j];
        let ghost kv = kj.entries_view();
        let mut pos: usize = 0;
        while pos < groups.len() && labels_lt(&groups[pos].labels, kj)
            invariant
                pos <= groups@.len(),
                kv == kj.entries_view(),
                forall|g: int| 0 <= g < pos ==> entries_lt(#[trigger] groups@[g].labels.entries_view(), kv),
            decreases groups@.len() - pos,
        {
            pos = pos + 1;
        }
        let ghost g0 = groups@;
        if pos < groups.len() && same_labels(&groups[pos].labels, kj) {
            let mut grp = groups.remove(pos);
            let ghost before = grp.members@;
            grp.members.push(j);
            groups.insert(pos, grp);
            proof {
                assert(groups@ == g0.update(pos as int, grp));
                assert(grp.members@ == before.push(j));
                assert(forall|g: int| 0 <= g < groups@.len() && g != pos ==> groups@[g] == g0[g]);
                assert(group_ok(g0[pos as int], keys@, j as int));
                lemma_group_ok_push(g0[pos as int], grp, keys@, j);
                assert forall|g: int| 0 <= g < groups@.len() implies group_ok(
                    #[trigger] groups@[g],
                    keys@,
                    j + 1,
                ) by {
                    if g != pos {
                        assert(groups@[g] == g0[g]);
                        assert(group_ok(g0[g], keys@, j as int));
                        lemma_group_ok_mono(g0[g], keys@, j as int, j + 1);
                    }
                }
                assert forall|g: int, k: int|
                    0 <= g < groups@.len() && 0 <= k < j + 1 && #[trigger] keys@[k].entries_view()
                        == #[trigger] groups@[g].labels.entries_view() implies groups@[g].members@.contains(
                    k as usize,
                ) by {
                    if g == pos {
                        if k < j {
                            assert(g0[g].members@.contains(k as usize));
                            let a = choose|a: int|
                                0 <= a < before.len() && before[a] == k as usize;
                            assert(groups@[g].members@[a] == k as usize);
                        } else {
                            assert(groups@[g].members@[before.len() as int] == k as usize);
                        }
                    } else {
                        if k == j {
                            lemma_entries_lt_total(g0[g].labels.entries_view(), kv);
                            lemma_entries_lt_total(kv, kv);
                            if g > pos {
                                assert(entries_lt(g0[pos as int].labels.entries_view(), g0[g].labels.entries_view()));
                            } else {
                                assert(entries_lt(g0[g].labels.entries_view(), kv));
                            }
                        }
                    }
                }
                assert forall|k: int| 0 <= k < j + 1 implies has_group(
                    groups@,
                    #[trigger] keys@[k].entries_view(),
                ) by {
                    if k == j {
                        assert(groups@[pos as int].labels.entries_view() == keys@[k].entries_view());
                    } else {
                        let g = choose|g: int|
                            0 <= g < g0.len() && g0[g].labels.entries_view() == keys@[k].entries_view();
                        assert(groups@[g].labels.entries_view() == keys@[k].entries_view());
                    }
                }
            }
        } else {
            proof {
                if pos < g0.len() {
                    lemma_entries_lt_total(g0[pos as int].labels.entries_view(), kv);
                    assert(entries_lt(kv, g0[pos as int].labels.entries_view()));
                }
                // no earlier sample has this key
                assert forall|g: int| 0 <= g < g0.len() implies #[trigger] g0[g].labels.entries_view() != kv by {
                    lemma_entries_lt_total(g0[g].labels.entries_view(), kv);
                    lemma_entries_lt_total(kv, kv);
                    if g > pos {
                        lemma_entries_lt_transitive(kv, g0[pos as int].labels.entries_view(), g0[g].labels.entries_view());
                    }
                }
            }
            let mut members: Vec<usize> = Vec::new();
            members.push(j);
            let labels = kj.clone();
            let grp = TsGroup { labels, members };
            groups.insert(pos, grp);
            proof {
                assert(groups@ == g0.insert(pos as int, grp));
                assert(grp.members@ =~= seq![j]);
                assert forall|g1: int, g2: int|
                    0 <= g1 < g2 < groups@.len() implies entries_lt(
                    #[trigger] groups@[g1].labels.entries_view(),
                    #[trigger] groups@[g2].labels.entries_view(),
                ) by {
                    if g1 < pos && g2 == pos {
                    } else if g1 < pos && g2 > pos {
                        assert(groups@[g2] == g0[g2 - 1]);
                    } else if g1 == pos {
                        assert(groups@[g2] == g0[g2 - 1]);
                        if g2 - 1 > pos {
                            lemma_entries_lt_transitive(kv, g0[pos as int].labels.entries_view(), g0[g2 - 1].labels.entries_view());
                        }
                    } else if g1 > pos {
                        assert(groups@[g1] == g0[g1 - 1]);
                        assert(groups@[g2] == g0[g2 - 1]);
                    }
                }
                assert(group_ok(grp, keys@, j + 1)) by {
                    assert(grp.members@[0] == j);
                    assert(keys@[j as int].entries_view() == grp.labels.entries_view());
                }
                assert forall|g: int| 0 <= g < groups@.len() implies group_ok(
                    #[trigger] groups@[g],
                    keys@,
                    j + 1,
                ) by {
                    if g < pos {
                        assert(groups@[g] == g0[g]);
                        assert(group_ok(g0[g], keys@, j as int));
                        lemma_group_ok_mono(g0[g], keys@, j as int, j + 1);
                    } else if g > pos {
                        assert(groups@[g] == g0[g - 1]);
                        assert(group_ok(g0[g - 1], keys@, j as int));
                        lemma_group_ok_mono(g0[g - 1], keys@, j as int, j + 1);
                    }
                }
                assert forall|g: int, k: int|
                    0 <= g < groups@.len() && 0 <= k < j + 1 && #[trigger] keys@[k].entries_view()
                        == #[trigger] groups@[g].labels.entries_view() implies groups@[g].members@.contains(
                    k as usize,
                ) by {
                    if g == pos {
                        if k < j {
                            let g2 = choose|g2: int|
                                0 <= g2 < g0.len() && g0[g2].labels.entries_view() == keys@[k].entries_view();
                            assert(g0[g2].labels.entries_view() != kv);
                        } else {
                            assert(groups@[g].members@[0] == k as usize);
                        }
                    } else {
                        let g2 = if g < pos { g } else { g - 1 };
                        assert(groups@[g] == g0[g2]);
                        if k == j {
                            assert(g0[g2].labels.entries_view() != kv);
                        }
                    }
                }
                assert forall|k: int| 0 <= k < j + 1 implies has_group(
                    groups@,
                    #[trigger] keys@[k].entries_view(),
                ) by {
                    if k == j {
                        assert(groups@[pos as int].labels.entries_view() == keys@[k].entries_view());
                    } else {
                        let g = choose|g: int|
                            0 <= g < g0.len() && g0[g].labels.entries_view() == keys@[k].entries_view();
                        if g < pos {
                            assert(groups@[g] == g0[g]);
                        } else {
                            assert(groups@[g + 1] == g0[g]);
                        }
                    }
                }
            }
        }
        j = j + 1;
    }
    groups
}

// ---------- evaluation instants and binary pairing ----------

/// `a - b` held to the `i64` range.
pub open spec fn sat_sub(a: i64, b: i64) -> i64 {
    if a - b > i64::MAX {
        i64::MAX
    } else if a - b < i64::MIN {
        i64::MIN
    } else {
        (a - b) as i64
    }
}

/// `a - b`, saturating at the ends of the `i64` range.
fn saturating_sub_i64(a: i64, b: i64) -> (r: i64)
    ensures
        r == sat_sub(a, b),
{
    let d: i128 = a as i128 - b as i128;
    if d > i64::MAX as i128 {
        i64::MAX
    } else if d < i64::MIN as i128 {
        i64::MIN
    } else {
        d as i64
    }
}

/// The instant a selector reads when the query is evaluated at `at`: `at`
/// moved back by the selector's offset.
pub fn probe_instant(sel: &Selector, at: i64) -> (t: i64)
    ensures
        t == sat_sub(at, sel.offset_ns),
{
    saturating_sub_i64(at, sel.offset_ns)
}

/// The inclusive window `(lo, hi)` a range function over `sel` reads when
/// evaluated at `at`: it ends at the probe instant and reaches back
/// `range_ns`.
pub fn range_window(sel: &Selector, range_ns: i64, at: i64) -> (w: (i64, i64))
    ensures
        w.1 == sat_sub(at, sel.offset_ns),
        w.0 == sat_sub(w.1, range_ns),
{
    let hi = probe_instant(sel, at);
    (saturating_sub_i64(hi, range_ns), hi)
}

/// A vector stands for a scalar when it is a single sample with no labels.
pub open spec fn scalar_like(v: Seq<TsTags>) -> bool {
    v.len() == 1 && v[0].spec_map().len() == 0
}

/// How a binary operator combines its operands, by their label sets: a
/// scalar on either side applies to every sample of the other side; two
/// vectors combine the pairs of samples with equal label sets.
pub enum TsBinaryShape {
    /// Both sides are scalars: one unlabelled result.
    BothScalar,
    /// The left side is a scalar: one result per right sample.
    LeftScalar,
    /// The right side is a scalar: one result per left sample.
    RightScalar,
    /// Two vectors: the positions of the paired samples, in left order.
    Matched(Vec<(usize, usize)>),
}

/// The shape a binary operator takes over operands with these label sets.
pub fn binary_shape(lhs: &Vec<TsTags>, rhs: &Vec<TsTags>) -> (r: TsBinaryShape)
    ensures
        match r {
            TsBinaryShape::BothScalar => scalar_like(lhs@) && scalar_like(rhs@),
            TsBinaryShape::LeftScalar => scalar_like(lhs@) && !scalar_like(rhs@),
            TsBinaryShape::RightScalar => !scalar_like(lhs@) && scalar_like(rhs@),
            TsBinaryShape::Matched(p) => {
                &&& !scalar_like(lhs@)
                &&& !scalar_like(rhs@)
                &&& p@.map_values(|q: (usize, usize)| (q.0 as int, q.1 as int)) == pairs_upto(
                    label_views(lhs@),
                    label_views(rhs@),
                    lhs@.len() as int,
                )
            },
        },
{
    let l = lhs.len() == 1 && lhs[0].is_empty();
    let r = rhs.len() == 1 && rhs[0].is_empty();
    if l && r {
        TsBinaryShape::BothScalar
    } else if l {
        TsBinaryShape::LeftScalar
    } else if r {
        TsBinaryShape::RightScalar
    } else {
        TsBinaryShape::Matched(vector_pairs(lhs, rhs))
    }
}

} // verus!
