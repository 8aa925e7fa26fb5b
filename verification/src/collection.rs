//! [`TsCollection`]: a flat by-id registry of many series. Lookup by id,
//! name or tag; bulk delete by tag or by a metadata predicate. Series keep
//! the order in which they were registered.

use vstd::prelude::*;

use crate::meta::TsSeriesMetadata;
use crate::point::{point_cloned, points_cloned, values_cloned, TsPoint};
use crate::series::{
    delete_at_result, fold_sum, in_window, keep_by, lemma_keep_by_filter, push_result, TsSeries,
};
use crate::text::{dec_nat, push_text, push_u64_dec, str_eq};
use crate::{ts_error_text, TsError, TsNumeric, TsValueKind};

verus! {

#[derive(Clone, Debug, PartialEq, Eq)]
pub enum TsCollectionError {
    DuplicateId(u64),
    DuplicateName(String),
    UnknownId(u64),
    Ingest(TsError),
}

/// The text shown for a collection error; an ingest error shows as itself.
pub open spec fn collection_error_text(e: TsCollectionError) -> Seq<char> {
    match e {
        TsCollectionError::DuplicateId(id) => "duplicate series id "@ + dec_nat(id as nat),
        TsCollectionError::DuplicateName(n) => "duplicate series name "@ + n@,
        TsCollectionError::UnknownId(id) => "unknown series id "@ + dec_nat(id as nat),
        TsCollectionError::Ingest(e) => ts_error_text(e),
    }
}

impl TsCollectionError {
    /// The error's text, naming the offending id or name.
    pub fn message(&self) -> (m: String)
        ensures
            m@ == collection_error_text(*self),
    {
        match self {
            TsCollectionError::DuplicateId(id) => {
                let mut m = "duplicate series id ".to_owned();
                push_u64_dec(&mut m, *id);
                m
            },
            TsCollectionError::DuplicateName(n) => {
                let mut m = "duplicate series name ".to_owned();
                push_text(&mut m, n.as_str());
                m
            },
            TsCollectionError::UnknownId(id) => {
                let mut m = "unknown series id ".to_owned();
                push_u64_dec(&mut m, *id);
                m
            },
            TsCollectionError::Ingest(e) => e.message(),
        }
    }
}

/// Cross-series aggregation selector.
#[derive(Copy, Clone, Debug, PartialEq, Eq)]
pub enum TsAgg {
    Sum,
    Min,
    Max,
    Mean,
    Count,
}

/// A registered series, keyed by its id.
pub type Entry<T> = (u64, TsSeries<T>);

/// No id occurs twice.
pub open spec fn ids_distinct<T>(e: Seq<Entry<T>>) -> bool {
    forall|i: int, j: int| 0 <= i < j < e.len() ==> e[i].0 != e[j].0
}

/// Some entry carries `id`.
pub open spec fn has_id<T>(e: Seq<Entry<T>>, id: u64) -> bool {
    exists|i: int| 0 <= i < e.len() && e[i].0 == id
}

/// The series registered under `id`.
pub open spec fn lookup<T>(e: Seq<Entry<T>>, id: u64) -> Option<TsSeries<T>> {
    if has_id(e, id) {
        Some(e[choose|i: int| 0 <= i < e.len() && e[i].0 == id].1)
    } else {
        None
    }
}

/// No name occurs twice.
pub open spec fn names_distinct(n: Seq<(Seq<char>, u64)>) -> bool {
    forall|i: int, j: int| 0 <= i < j < n.len() ==> n[i].0 != n[j].0
}

/// The name index an entry list denotes.
pub open spec fn name_map(n: Seq<(Seq<char>, u64)>) -> Map<Seq<char>, u64> {
    Map::new(
        |k: Seq<char>| exists|i: int| 0 <= i < n.len() && n[i].0 == k,
        |k: Seq<char>| n[name_index(n, k)].1,
    )
}

/// Some position holding name `k` (the only one when names are distinct).
pub open spec fn name_index(n: Seq<(Seq<char>, u64)>, k: Seq<char>) -> int {
    choose|i: int| 0 <= i < n.len() && n[i].0 == k
}

/// The series carries the tag `key=value`.
pub open spec fn tagged<T>(s: TsSeries<T>, key: Seq<char>, value: Seq<char>) -> bool {
    match s.spec_meta() {
        Some(m) => m.tags.spec_map().contains_key(key) && m.tags.spec_map()[key] == value,
        None => false,
    }
}

/// The name under which a series is indexed, if it has metadata.
pub open spec fn meta_name<T>(s: TsSeries<T>) -> Option<Seq<char>> {
    match s.spec_meta() {
        Some(m) => Some(m.name@),
        None => None,
    }
}

/// Total number of points held by the entries.
pub open spec fn total_points<T>(e: Seq<Entry<T>>) -> nat
    decreases e.len(),
{
    if e.len() == 0 {
        0
    } else {
        total_points(e.drop_last()) + e.last().1@.len()
    }
}

/// Some point of `s` is stamped `target`.
pub open spec fn has_stamp<T>(s: Seq<TsPoint<T>>, target: i64) -> bool {
    exists|i: int| 0 <= i < s.len() && s[i].ts == target
}

proof fn lemma_lookup_at<T>(e: Seq<Entry<T>>, i: int)
    requires
        ids_distinct(e),
        0 <= i < e.len(),
    ensures
        has_id(e, e[i].0),
        lookup(e, e[i].0) == Some(e[i].1),
{
    let id = e[i].0;
    assert(has_id(e, id));
    let j = choose|j: int| 0 <= j < e.len() && e[j].0 == id;
    assert(j == i);
}

proof fn lemma_name_map_at(n: Seq<(Seq<char>, u64)>, i: int)
    requires
        names_distinct(n),
        0 <= i < n.len(),
    ensures
        name_map(n).contains_key(n[i].0),
        name_map(n)[n[i].0] == n[i].1,
{
    let k = n[i].0;
    assert(exists|j: int| 0 <= j < n.len() && n[j].0 == k);
    let j = name_index(n, k);
    assert(j == i);
}

proof fn lemma_name_map_push(n: Seq<(Seq<char>, u64)>, k: Seq<char>, v: u64)
    requires
        names_distinct(n),
        !name_map(n).contains_key(k),
    ensures
        names_distinct(n.push((k, v))),
        name_map(n.push((k, v))) == name_map(n).insert(k, v),
{
    let n2 = n.push((k, v));
    assert forall|i: int, j: int| 0 <= i < j < n2.len() implies n2[i].0 != n2[j].0 by {
        if j == n.len() {
            assert(name_map(n).contains_key(n[i].0)) by {
                lemma_name_map_at(n, i);
            }
        }
    }
    assert forall|q: Seq<char>| #[trigger] name_map(n2).contains_key(q) == name_map(n).insert(
        k,
        v,
    ).contains_key(q) by {
        if name_map(n).contains_key(q) {
            let j = name_index(n, q);
            assert(n2[j].0 == q);
        }
        if q == k {
            assert(n2[n.len() as int].0 == k);
        }
    }
    assert forall|q: Seq<char>| #[trigger] name_map(n2).contains_key(q) implies name_map(n2)[q]
        == name_map(n).insert(k, v)[q] by {
        if q == k {
            lemma_name_map_at(n2, n.len() as int);
        } else {
            let j = name_index(n2, q);
            assert(j < n.len());
            lemma_name_map_at(n, j);
            lemma_name_map_at(n2, j);
        }
    }
    assert(name_map(n2) =~= name_map(n).insert(k, v));
}

proof fn lemma_name_map_remove(n: Seq<(Seq<char>, u64)>, i: int)
    requires
        names_distinct(n),
        0 <= i < n.len(),
    ensures
        names_distinct(n.remove(i)),
        name_map(n.remove(i)) == name_map(n).remove(n[i].0),
{
    let n2 = n.remove(i);
    let k = n[i].0;
    assert forall|a: int, b: int| 0 <= a < b < n2.len() implies n2[a].0 != n2[b].0 by {
        let a0 = if a < i { a } else { a + 1 };
        let b0 = if b < i { b } else { b + 1 };
        assert(n2[a] == n[a0]);
        assert(n2[b] == n[b0]);
    }
    assert forall|q: Seq<char>| #[trigger] name_map(n2).contains_key(q) == name_map(n).remove(
        k,
    ).contains_key(q) by {
        if name_map(n2).contains_key(q) {
            let j = name_index(n2, q);
            let j0 = if j < i { j } else { j + 1 };
            assert(n[j0].0 == q);
            assert(j0 != i);
        }
        if name_map(n).contains_key(q) && q != k {
            let j = name_index(n, q);
            assert(j != i);
            let j2 = if j < i { j } else { j - 1 };
            assert(n2[j2].0 == q);
        }
    }
    assert forall|q: Seq<char>| #[trigger] name_map(n2).contains_key(q) implies name_map(n2)[q]
        == name_map(n).remove(k)[q] by {
        let j = name_index(n2, q);
        let j0 = if j < i { j } else { j + 1 };
        lemma_name_map_at(n2, j);
        lemma_name_map_at(n, j0);
    }
    assert(name_map(n2) =~= name_map(n).remove(k));
}

proof fn lemma_total_points_step<T>(e: Seq<Entry<T>>, i: int)
    requires
        0 <= i < e.len(),
    ensures
        total_points(e.take(i + 1)) == total_points(e.take(i)) + e[i].1@.len(),
{
    assert(e.take(i + 1).drop_last() =~= e.take(i));
}

proof fn lemma_filter_take_step<A>(s: Seq<A>, p: spec_fn(A) -> bool, i: int)
    requires
        0 <= i < s.len(),
    ensures
        s.take(i + 1).filter(p) == (if p(s[i]) {
            s.take(i).filter(p).push(s[i])
        } else {
            s.take(i).filter(p)
        }),
{
    reveal(Seq::filter);
    assert(s.take(i + 1).drop_last() =~= s.take(i));
}

/// `b` holds the same ids, in the same order, as `a`, each with the same
/// metadata; only the points may differ.
pub open spec fn same_slots<T>(a: Seq<Entry<T>>, b: Seq<Entry<T>>) -> bool {
    &&& a.len() == b.len()
    &&& forall|j: int|
        0 <= j < a.len() ==> #[trigger] b[j].0 == a[j].0 && b[j].1.spec_meta() == a[j].1.spec_meta()
}

/// What [`TsCollection::delete_at_by_tag`] does to one series: a series
/// tagged `key=value` loses its first point stamped `ts` (if any); any other
/// series keeps its points.
pub open spec fn delete_at_step<T>(
    old: TsSeries<T>,
    new: Seq<TsPoint<T>>,
    key: Seq<char>,
    value: Seq<char>,
    ts: i64,
) -> bool {
    if tagged(old, key, value) {
        exists|r: Option<TsPoint<T>>| delete_at_result(old@, new, ts, r)
    } else {
        new == old@
    }
}

/// The names the given series are indexed under.
pub open spec fn names_of<T>(e: Seq<Entry<T>>) -> Set<Seq<char>> {
    Set::new(|k: Seq<char>| exists|i: int| 0 <= i < e.len() && meta_name(e[i].1) == Some(k))
}

proof fn lemma_total_prefix<T>(e: Seq<Entry<T>>, i: int)
    requires
        0 <= i <= e.len(),
    ensures
        total_points(e.take(i)) <= total_points(e),
    decreases e.len() - i,
{
    if i < e.len() {
        lemma_total_points_step(e, i);
        lemma_total_prefix(e, i + 1);
    } else {
        assert(e.take(i) =~= e);
    }
}

proof fn lemma_keep_by_take_step<A>(s: Seq<A>, f: Seq<bool>, i: int)
    requires
        0 <= i < s.len(),
        s.len() == f.len(),
    ensures
        keep_by(s.take(i + 1), f.take(i + 1)) == (if f[i] {
            keep_by(s.take(i), f.take(i)).push(s[i])
        } else {
            keep_by(s.take(i), f.take(i))
        }),
{
    assert(s.take(i + 1).drop_last() =~= s.take(i));
    assert(f.take(i + 1).drop_last() =~= f.take(i));
}

proof fn lemma_names_of_push<T>(e: Seq<Entry<T>>, x: Entry<T>)
    ensures
        names_of(e.push(x)) == match meta_name(x.1) {
            Some(k) => names_of(e).insert(k),
            None => names_of(e),
        },
{
    let e2 = e.push(x);
    let rhs = match meta_name(x.1) {
        Some(k) => names_of(e).insert(k),
        None => names_of(e),
    };
    assert forall|k: Seq<char>| #[trigger] names_of(e2).contains(k) implies rhs.contains(k) by {
        let i = choose|i: int| 0 <= i < e2.len() && meta_name(e2[i].1) == Some(k);
        if i < e.len() {
            assert(e[i] == e2[i]);
        }
    }
    assert forall|k: Seq<char>| #[trigger] rhs.contains(k) implies names_of(e2).contains(k) by {
        if names_of(e).contains(k) {
            let i = choose|i: int| 0 <= i < e.len() && meta_name(e[i].1) == Some(k);
            assert(e2[i] == e[i]);
        } else {
            assert(e2[e.len() as int] == x);
        }
    }
    assert(names_of(e2) =~= rhs);
}

/// Registry of series keyed by id, with a name index.
#[derive(Debug)]
pub struct TsCollection<T> {
    series: Vec<Entry<T>>,
    names: Vec<(String, u64)>,
}

/// What [`TsCollection::register`] does: a clashing id is refused first,
/// then a clashing non-empty name; otherwise the empty series carrying
/// `meta` is appended under `meta.id`, and a non-empty name is indexed.
pub open spec fn register_result<T: Clone>(
    old: TsCollection<T>,
    new: TsCollection<T>,
    meta: TsSeriesMetadata,
    r: Result<u64, TsCollectionError>,
) -> bool {
    &&& has_id(old.entries(), meta.id) ==> r == Err::<u64, TsCollectionError>(
        TsCollectionError::DuplicateId(meta.id),
    )
    &&& !has_id(old.entries(), meta.id) && meta.name@.len() > 0 && old.spec_names().contains_key(
        meta.name@,
    ) ==> (r matches Err(TsCollectionError::DuplicateName(n)) && n@ == meta.name@)
    &&& r is Ok <==> !has_id(old.entries(), meta.id) && !(meta.name@.len() > 0
        && old.spec_names().contains_key(meta.name@))
    &&& r is Err ==> new.entries() == old.entries() && new.spec_names() == old.spec_names()
    &&& r is Ok ==> {
        &&& r == Ok::<u64, TsCollectionError>(meta.id)
        &&& new.entries().len() == old.entries().len() + 1
        &&& new.entries().drop_last() == old.entries()
        &&& new.entries().last().0 == meta.id
        &&& new.entries().last().1@ == Seq::<TsPoint<T>>::empty()
        &&& new.entries().last().1.spec_meta() == Some(meta)
        &&& new.spec_names() == if meta.name@.len() > 0 {
            old.spec_names().insert(meta.name@, meta.id)
        } else {
            old.spec_names()
        }
    }
}

/// What [`TsCollection::deregister`] does: the entry under `id` is removed
/// and returned, and its series' name is dropped from the name index; with
/// no such entry nothing changes.
pub open spec fn deregister_result<T: Clone>(
    old: TsCollection<T>,
    new: TsCollection<T>,
    id: u64,
    r: Option<TsSeries<T>>,
) -> bool {
    match r {
        None => !has_id(old.entries(), id) && new.entries() == old.entries() && new.spec_names() == old.spec_names(),
        Some(s) => exists|i: int|
            0 <= i < old.entries().len() && old.entries()[i] == (id, s)
                && new.entries() == old.entries().remove(i)
                && new.spec_names() == match meta_name(s) {
                Some(k) => old.spec_names().remove(k),
                None => old.spec_names(),
            },
    }
}

impl<T: Clone> TsCollection<T> {
    /// The registered series with their ids, in registration order.
    pub closed spec fn entries(&self) -> Seq<Entry<T>> {
        self.series@
    }

    pub closed spec fn name_entries(&self) -> Seq<(Seq<char>, u64)> {
        self.names@.map_values(|e: (String, u64)| (e.0@, e.1))
    }

    /// The name index: name -> id.
    pub open spec fn spec_names(&self) -> Map<Seq<char>, u64> {
        name_map(self.name_entries())
    }

    /// The series registered under `id`, if any.
    pub open spec fn spec_get(&self, id: u64) -> Option<TsSeries<T>> {
        lookup(self.entries(), id)
    }

    /// Ids are unique and so are indexed names.
    pub closed spec fn wf(&self) -> bool {
        &&& ids_distinct(self.series@)
        &&& names_distinct(self.name_entries())
        &&& forall|i: int| 0 <= i < self.name_entries().len() ==> (#[trigger] self.name_entries()[i]).0.len() > 0
    }

    pub fn new() -> (c: Self)
        ensures
            c.wf(),
            c.entries() == Seq::<Entry<T>>::empty(),
            c.spec_names() == Map::<Seq<char>, u64>::empty(),
    {
        let c = TsCollection { series: Vec::new(), names: Vec::new() };
        assert(c.name_entries() =~= Seq::<(Seq<char>, u64)>::empty());
        assert(c.spec_names() =~= Map::<Seq<char>, u64>::empty());
        c
    }

    /// Position of `id`, if registered.
    fn find(&self, id: u64) -> (r: Option<usize>)
        ensures
            match r {
                Some(i) => i < self.entries().len() && self.entries()[i as int].0 == id,
                None => !has_id(self.entries(), id),
            },
    {
        let mut i: usize = 0;
        while i < self.series.len()
            invariant
                i <= self.series@.len(),
                forall|j: int| 0 <= j < i ==> self.series@[j].0 != id,
            decreases self.series@.len() - i,
        {
            if self.series[i].0 == id {
                return Some(i);
            }
            i = i + 1;
        }
        None
    }

    /// Position of `name` in the name index, if present.
    fn find_name(&self, name: &str) -> (r: Option<usize>)
        requires
            self.wf(),
        ensures
            match r {
                Some(i) => i < self.name_entries().len() && self.name_entries()[i as int].0
                    == name@,
                None => !self.spec_names().contains_key(name@),
            },
    {
        let mut i: usize = 0;
        while i < self.names.len()
            invariant
                i <= self.names@.len(),
                forall|j: int| 0 <= j < i ==> self.name_entries()[j].0 != name@,
            decreases self.names@.len() - i,
        {
            if str_eq(self.names[i].0.as_str(), name) {
                return Some(i);
            }
            i = i + 1;
        }
        None
    }

    /// Register an empty series under its metadata id + name. Returns the id.
    /// A clash of ids is reported before a clash of (non-empty) names; an
    /// empty name is not indexed.
    pub fn register(&mut self, meta: TsSeriesMetadata) -> (r: Result<u64, TsCollectionError>)
        requires
            old(self).wf(),
        ensures
            final(self).wf(),
            register_result(*old(self), *final(self), meta, r),
    {
        let id = meta.id;
        if self.find(id).is_some() {
            return Err(TsCollectionError::DuplicateId(id));
        }
        let named = !meta.name.as_str().is_empty();
        proof {
            assert(named == (meta.name@.len() > 0));
        }
        if named && self.find_name(meta.name.as_str()).is_some() {
            proof {
                let i = choose|i: int| 0 <= i < self.name_entries().len() && self.name_entries()[i].0 == meta.name@;
                lemma_name_map_at(self.name_entries(), i);
            }
            return Err(TsCollectionError::DuplicateName(meta.name));
        }
        let ghost ne = self.name_entries();
        if named {
            let key = meta.name.clone();
            self.names.push((key, id));
            proof {
                assert(self.name_entries() =~= ne.push((meta.name@, id)));
                lemma_name_map_push(ne, meta.name@, id);
            }
        }
        assert(self.name_entries() == if named { ne.push((meta.name@, id)) } else { ne });
        let ghost before = self.series@;
        let s = TsSeries::new().with_metadata(meta);
        self.series.push((id, s));
        proof {
            assert(self.series@.drop_last() =~= before);
            assert forall|i: int, j: int| 0 <= i < j < self.series@.len() implies self.series@[i].0
                != self.series@[j].0 by {
                if j == before.len() {
                    assert(before[i].0 == self.series@[i].0);
                }
            }
        }
        Ok(id)
    }

    /// The series registered under `id`.
    pub fn get(&self, id: u64) -> (r: Option<&TsSeries<T>>)
        requires
            self.wf(),
        ensures
            match r {
                Some(s) => self.spec_get(id) == Some(*s),
                None => self.spec_get(id) is None,
            },
    {
        match self.find(id) {
            Some(i) => {
                proof {
                    lemma_lookup_at(self.series@, i as int);
                }
                Some(&self.series[i].1)
            },
            None => None,
        }
    }

    /// Mutable access to the series registered under `id`. Ids and the name
    /// index stay as they are; only that series can change through it.
    pub fn get_mut(&mut self, id: u64) -> (r: Option<&mut TsSeries<T>>)
        requires
            old(self).wf(),
        ensures
            match r {
                Some(s) => exists|i: int|
                    0 <= i < old(self).entries().len() && old(self).entries()[i].0 == id
                        && old(self).entries()[i].1 == *s && final(self).entries() == old(self).entries().update(i, (id, *final(s))),
                None => !has_id(old(self).entries(), id) && final(self).entries() == old(self).entries(),
            },
            final(self).spec_names() == old(self).spec_names(),
            final(self).wf(),
    {
        match self.find(id) {
            Some(i) => {
                let r = &mut self.series[i].1;
                Some(r)
            },
            None => None,
        }
    }

    /// Append an observation to the series registered under `id`.
    pub fn push(&mut self, id: u64, ts: i64, value: T) -> (r: Result<(), TsCollectionError>)
        where
            T: TsValueKind,
        requires
            old(self).wf(),
        ensures
            final(self).wf(),
            final(self).spec_names() == old(self).spec_names(),
            !has_id(old(self).entries(), id) ==> r == Err::<(), TsCollectionError>(
                TsCollectionError::UnknownId(id),
            ) && final(self).entries() == old(self).entries(),
            has_id(old(self).entries(), id) ==> exists|i: int, s: TsSeries<T>, e: Result<(), TsError>|
                0 <= i < old(self).entries().len() && old(self).entries()[i].0 == id
                    && final(self).entries() == old(self).entries().update(i, (id, s))
                    && s.spec_meta() == old(self).entries()[i].1.spec_meta()
                    && push_result(old(self).entries()[i].1@, s@, ts, value, e)
                    && r == match e {
                    Ok(()) => Ok::<(), TsCollectionError>(()),
                    Err(x) => Err(TsCollectionError::Ingest(x)),
                },
    {
        match self.find(id) {
            Some(i) => {
                let ghost old_e = self.series@;
                let res = self.series[i].1.push(ts, value);
                let ghost s = self.series@[i as int].1;
                proof {
                    assert(self.series@ =~= old_e.update(i as int, (id, s)));
                }
                match res {
                    Ok(()) => Ok(()),
                    Err(x) => Err(TsCollectionError::Ingest(x)),
                }
            },
            None => Err(TsCollectionError::UnknownId(id)),
        }
    }

    /// Drop `s`'s name from the name index, if it has metadata.
    fn unindex_name(&mut self, s: &TsSeries<T>)
        requires
            old(self).wf(),
        ensures
            final(self).wf(),
            final(self).entries() == old(self).entries(),
            final(self).spec_names() == match meta_name(*s) {
                Some(k) => old(self).spec_names().remove(k),
                None => old(self).spec_names(),
            },
    {
        match s.metadata() {
            Some(m) => {
                match self.find_name(m.name.as_str()) {
                    Some(j) => {
                        let ghost ne = self.name_entries();
                        self.names.remove(j);
                        proof {
                            assert(self.name_entries() =~= ne.remove(j as int));
                            lemma_name_map_remove(ne, j as int);
                        }
                    },
                    None => {
                        assert(self.spec_names() =~= self.spec_names().remove(m.name@));
                    },
                }
            },
            None => {},
        }
    }

    /// The series whose name is indexed as `name`.
    pub fn by_name(&self, name: &str) -> (r: Option<&TsSeries<T>>)
        requires
            self.wf(),
        ensures
            match r {
                Some(s) => self.spec_names().contains_key(name@) && self.spec_get(
                    self.spec_names()[name@],
                ) == Some(*s),
                None => !self.spec_names().contains_key(name@) || self.spec_get(
                    self.spec_names()[name@],
                ) is None,
            },
    {
        match self.find_name(name) {
            Some(j) => {
                proof {
                    lemma_name_map_at(self.name_entries(), j as int);
                }
                self.get(self.names[j].1)
            },
            None => None,
        }
    }

    /// Does `s` carry the tag `key=value`?
    fn is_tagged(s: &TsSeries<T>, key: &str, value: &str) -> (b: bool)
        ensures
            b == tagged(*s, key@, value@),
    {
        match s.metadata() {
            Some(m) => match m.tags.get(key) {
                Some(v) => str_eq(v.as_str(), value),
                None => false,
            },
            None => false,
        }
    }

    /// The series carrying the tag `key=value`, in registration order.
    pub fn by_tag(&self, key: &str, value: &str) -> (r: Vec<&TsSeries<T>>)
        ensures
            r@.map_values(|s: &TsSeries<T>| *s) == self.entries().filter(
                |e: Entry<T>| tagged(e.1, key@, value@),
            ).map_values(|e: Entry<T>| e.1),
    {
        let ghost e = self.series@;
        let ghost p = |x: Entry<T>| tagged(x.1, key@, value@);
        let mut r: Vec<&TsSeries<T>> = Vec::new();
        for i in 0..self.series.len()
            invariant
                e == self.series@,
                p == (|x: Entry<T>| tagged(x.1, key@, value@)),
                r@.map_values(|s: &TsSeries<T>| *s) == e.take(i as int).filter(p).map_values(
                    |x: Entry<T>| x.1,
                ),
        {
            proof {
                lemma_filter_take_step(e, p, i as int);
            }
            let ghost prev = r@;
            let x = &self.series[i].1;
            assert(*x == e[i as int].1);
            assert(p(e[i as int]) == tagged(e[i as int].1, key@, value@));
            if Self::is_tagged(x, key, value) {
                r.push(x);
                proof {
                    assert(r@.map_values(|s: &TsSeries<T>| *s) =~= prev.map_values(
                        |s: &TsSeries<T>| *s,
                    ).push(*x));
                    assert(e.take(i as int).filter(p).push(e[i as int]).map_values(|y: Entry<T>| y.1)
                        =~= e.take(i as int).filter(p).map_values(|y: Entry<T>| y.1).push(e[i as int].1));
                }
            }
        }
        assert(e.take(e.len() as int) =~= e);
        r
    }

    /// The registered ids, in registration order.
    pub fn ids(&self) -> (r: Vec<u64>)
        ensures
            r@ == self.entries().map_values(|e: Entry<T>| e.0),
    {
        let mut r: Vec<u64> = Vec::new();
        for i in 0..self.series.len()
            invariant
                r@ == self.series@.take(i as int).map_values(|e: Entry<T>| e.0),
        {
            r.push(self.series[i].0);
            assert(r@ =~= self.series@.take(i + 1).map_values(|e: Entry<T>| e.0));
        }
        assert(self.series@.take(self.series@.len() as int) =~= self.series@);
        r
    }

    /// The registered series, in registration order.
    pub fn series(&self) -> (r: Vec<&TsSeries<T>>)
        ensures
            r@.map_values(|s: &TsSeries<T>| *s) == self.entries().map_values(|e: Entry<T>| e.1),
    {
        let mut r: Vec<&TsSeries<T>> = Vec::new();
        for i in 0..self.series.len()
            invariant
                r@.map_values(|s: &TsSeries<T>| *s) == self.series@.take(i as int).map_values(
                    |e: Entry<T>| e.1,
                ),
        {
            let ghost prev = r@;
            let x = &self.series[i].1;
            r.push(x);
            proof {
                assert(r@.map_values(|s: &TsSeries<T>| *s) =~= prev.map_values(
                    |s: &TsSeries<T>| *s,
                ).push(*x));
                assert(self.series@.take(i + 1).map_values(|e: Entry<T>| e.1) =~= self.series@.take(
                    i as int,
                ).map_values(|e: Entry<T>| e.1).push(self.series@[i as int].1));
            }
        }
        assert(self.series@.take(self.series@.len() as int) =~= self.series@);
        r
    }

    pub fn len(&self) -> (n: usize)
        ensures
            n == self.entries().len(),
    {
        self.series.len()
    }

    pub fn is_empty(&self) -> (b: bool)
        ensures
            b == (self.entries().len() == 0),
    {
        self.series.len() == 0
    }

    pub fn contains(&self, id: u64) -> (b: bool)
        ensures
            b == has_id(self.entries(), id),
    {
        self.find(id).is_some()
    }

    // ---------- delete surface ----------

    /// Remove and return the series registered under `id`; its name (as its
    /// metadata now reads) leaves the name index.
    pub fn deregister(&mut self, id: u64) -> (r: Option<TsSeries<T>>)
        requires
            old(self).wf(),
        ensures
            final(self).wf(),
            deregister_result(*old(self), *final(self), id, r),
    {
        match self.find(id) {
            Some(i) => {
                let ghost e = self.series@;
                let (k, s) = self.series.remove(i);
                proof {
                    assert forall|a: int, b: int| 0 <= a < b < self.series@.len() implies self.series@[a].0
                        != self.series@[b].0 by {
                        let a0 = if a < i { a } else { a + 1 };
                        let b0 = if b < i { b } else { b + 1 };
                        assert(self.series@[a] == e[a0]);
                        assert(self.series@[b] == e[b0]);
                    }
                }
                self.unindex_name(&s);
                Some(s)
            },
            None => None,
        }
    }

    /// Remove + return the first point stamped `ts` in the series registered
    /// under `id`.
    pub fn delete_at(&mut self, id: u64, ts: i64) -> (r: Option<TsPoint<T>>)
        requires
            old(self).wf(),
        ensures
            final(self).wf(),
            final(self).spec_names() == old(self).spec_names(),
            !has_id(old(self).entries(), id) ==> r is None && final(self).entries() == old(self).entries(),
            has_id(old(self).entries(), id) ==> exists|i: int, s: TsSeries<T>|
                0 <= i < old(self).entries().len() && old(self).entries()[i].0 == id
                    && final(self).entries() == old(self).entries().update(i, (id, s))
                    && s.spec_meta() == old(self).entries()[i].1.spec_meta() && delete_at_result(
                    old(self).entries()[i].1@,
                    s@,
                    ts,
                    r,
                ),
    {
        match self.find(id) {
            Some(i) => {
                let ghost old_e = self.series@;
                let r = self.series[i].1.delete_at(ts);
                let ghost s = self.series@[i as int].1;
                assert(self.series@ =~= old_e.update(i as int, (id, s)));
                r
            },
            None => None,
        }
    }

    /// Remove the `[lo, hi]` window from the series registered under `id`.
    /// Returns the count removed (0 for an unknown id).
    pub fn delete_range(&mut self, id: u64, lo: i64, hi: i64) -> (removed: usize)
        requires
            old(self).wf(),
        ensures
            final(self).wf(),
            final(self).spec_names() == old(self).spec_names(),
            !has_id(old(self).entries(), id) ==> removed == 0 && final(self).entries() == old(self).entries(),
            has_id(old(self).entries(), id) ==> exists|i: int, s: TsSeries<T>|
                0 <= i < old(self).entries().len() && old(self).entries()[i].0 == id
                    && final(self).entries() == old(self).entries().update(i, (id, s))
                    && s.spec_meta() == old(self).entries()[i].1.spec_meta() && s@ == old(self).entries()[i].1@.filter(|p: TsPoint<T>| !in_window(p.ts, lo, hi)) && removed
                    == old(self).entries()[i].1@.len() - s@.len(),
    {
        match self.find(id) {
            Some(i) => {
                let ghost old_e = self.series@;
                let r = self.series[i].1.delete_range(lo, hi);
                let ghost s = self.series@[i as int].1;
                assert(self.series@ =~= old_e.update(i as int, (id, s)));
                r
            },
            None => 0,
        }
    }

    /// Drop points before `cutoff` in every series. Returns the total removed.
    pub fn truncate_before(&mut self, cutoff: i64) -> (removed: usize)
        requires
            old(self).wf(),
            total_points(old(self).entries()) <= usize::MAX,
        ensures
            final(self).wf(),
            final(self).spec_names() == old(self).spec_names(),
            same_slots(old(self).entries(), final(self).entries()),
            forall|j: int|
                0 <= j < old(self).entries().len() ==> #[trigger] final(self).entries()[j].1@ == old(self).entries()[j].1@.filter(|p: TsPoint<T>| p.ts >= cutoff),
            removed == total_points(old(self).entries()) - total_points(final(self).entries()),
    {
        let ghost e0 = self.series@;
        let n = self.series.len();
        let mut removed: usize = 0;
        let mut i: usize = 0;
        while i < n
            invariant
                i <= n,
                n == e0.len(),
                self.series@.len() == n,
                self.names == old(self).names,
                e0 == old(self).series@,
                ids_distinct(e0),
                names_distinct(old(self).name_entries()),
                total_points(e0) <= usize::MAX,
                forall|j: int| 0 <= j < n ==> #[trigger] self.series@[j].0 == e0[j].0,
                forall|j: int|
                    0 <= j < i ==> #[trigger] self.series@[j].1@ == e0[j].1@.filter(
                        |p: TsPoint<T>| p.ts >= cutoff,
                    ),
                forall|j: int| 0 <= j < i ==> #[trigger] self.series@[j].1.spec_meta() == e0[j].1.spec_meta(),
                forall|j: int| i <= j < n ==> #[trigger] self.series@[j] == e0[j],
                removed == total_points(e0.take(i as int)) - total_points(self.series@.take(i as int)),
            decreases n - i,
        {
            let ghost before = self.series@;
            let k = self.series[i].1.truncate_before(cutoff);
            proof {
                assert(self.series@ == before.update(i as int, (e0[i as int].0, self.series@[i as int].1)));
                assert(self.series@[i as int].1@ == e0[i as int].1@.filter(|p: TsPoint<T>| p.ts >= cutoff));
                assert(self.series@.take(i as int) =~= before.take(i as int));
                lemma_total_points_step(e0, i as int);
                lemma_total_points_step(self.series@, i as int);
                lemma_total_prefix(e0, i + 1);
            }
            removed = removed + k;
            i = i + 1;
        }
        proof {
            assert(e0.take(n as int) =~= e0);
            assert(self.series@.take(n as int) =~= self.series@);
        }
        removed
    }

    /// Drop points after `cutoff` in every series. Returns the total removed.
    pub fn truncate_after(&mut self, cutoff: i64) -> (removed: usize)
        requires
            old(self).wf(),
            total_points(old(self).entries()) <= usize::MAX,
        ensures
            final(self).wf(),
            final(self).spec_names() == old(self).spec_names(),
            same_slots(old(self).entries(), final(self).entries()),
            forall|j: int|
                0 <= j < old(self).entries().len() ==> #[trigger] final(self).entries()[j].1@ == old(self).entries()[j].1@.filter(|p: TsPoint<T>| p.ts <= cutoff),
            removed == total_points(old(self).entries()) - total_points(final(self).entries()),
    {
        let ghost e0 = self.series@;
        let n = self.series.len();
        let mut removed: usize = 0;
        let mut i: usize = 0;
        while i < n
            invariant
                i <= n,
                n == e0.len(),
                self.series@.len() == n,
                self.names == old(self).names,
                e0 == old(self).series@,
                ids_distinct(e0),
                names_distinct(old(self).name_entries()),
                total_points(e0) <= usize::MAX,
                forall|j: int| 0 <= j < n ==> #[trigger] self.series@[j].0 == e0[j].0,
                forall|j: int|
                    0 <= j < i ==> #[trigger] self.series@[j].1@ == e0[j].1@.filter(
                        |p: TsPoint<T>| p.ts <= cutoff,
                    ),
                forall|j: int| 0 <= j < i ==> #[trigger] self.series@[j].1.spec_meta() == e0[j].1.spec_meta(),
                forall|j: int| i <= j < n ==> #[trigger] self.series@[j] == e0[j],
                removed == total_points(e0.take(i as int)) - total_points(self.series@.take(i as int)),
            decreases n - i,
        {
            let ghost before = self.series@;
            let k = self.series[i].1.truncate_after(cutoff);
            proof {
                assert(self.series@.take(i as int) =~= before.take(i as int));
                lemma_total_points_step(e0, i as int);
                lemma_total_points_step(self.series@, i as int);
                lemma_total_prefix(e0, i + 1);
            }
            removed = removed + k;
            i = i + 1;
        }
        proof {
            assert(e0.take(n as int) =~= e0);
            assert(self.series@.take(n as int) =~= self.series@);
        }
        removed
    }

    /// Drop the first point stamped `ts` from every series tagged
    /// `key=value`. Returns how many series lost a point.
    pub fn delete_at_by_tag(&mut self, key: &str, value: &str, ts: i64) -> (hits: usize)
        requires
            old(self).wf(),
        ensures
            final(self).wf(),
            final(self).spec_names() == old(self).spec_names(),
            same_slots(old(self).entries(), final(self).entries()),
            forall|j: int|
                0 <= j < old(self).entries().len() ==> delete_at_step(
                    old(self).entries()[j].1,
                    #[trigger] final(self).entries()[j].1@,
                    key@,
                    value@,
                    ts,
                ),
            hits == old(self).entries().filter(
                |x: Entry<T>| tagged(x.1, key@, value@) && has_stamp(x.1@, ts),
            ).len(),
    {
        let ghost e0 = self.series@;
        let ghost p = |x: Entry<T>| tagged(x.1, key@, value@) && has_stamp(x.1@, ts);
        let n = self.series.len();
        let mut hits: usize = 0;
        let mut i: usize = 0;
        while i < n
            invariant
                i <= n,
                n == e0.len(),
                self.series@.len() == n,
                self.names == old(self).names,
                e0 == old(self).series@,
                p == (|x: Entry<T>| tagged(x.1, key@, value@) && has_stamp(x.1@, ts)),
                ids_distinct(e0),
                names_distinct(old(self).name_entries()),
                forall|j: int| 0 <= j < n ==> #[trigger] self.series@[j].0 == e0[j].0,
                forall|j: int|
                    0 <= j < i ==> delete_at_step(e0[j].1, #[trigger] self.series@[j].1@, key@, value@, ts),
                forall|j: int| 0 <= j < i ==> #[trigger] self.series@[j].1.spec_meta() == e0[j].1.spec_meta(),
                forall|j: int| i <= j < n ==> #[trigger] self.series@[j] == e0[j],
                hits == e0.take(i as int).filter(p).len(),
                hits <= i,
            decreases n - i,
        {
            proof {
                lemma_filter_take_step(e0, p, i as int);
            }
            let ghost before = self.series@;
            if Self::is_tagged(&self.series[i].1, key, value) {
                let r = self.series[i].1.delete_at(ts);
                assert(self.series@ == before.update(i as int, (e0[i as int].0, self.series@[i as int].1)));
                proof {
                    let s_old = e0[i as int].1@;
                    let s_new = self.series@[i as int].1@;
                    assert(delete_at_result(s_old, s_new, ts, r));
                    if r is None {
                        assert(!has_stamp(s_old, ts));
                    } else {
                        let q = r->0;
                        let k = choose|k: int| 0 <= k < s_old.len() && s_old[k] == q && q.ts == ts
                            && (forall|j: int| 0 <= j < k ==> s_old[j].ts != ts) && s_new == s_old.remove(k);
                        assert(s_old[k].ts == ts);
                        assert(has_stamp(s_old, ts));
                    }
                    assert(exists|r2: Option<TsPoint<T>>| delete_at_result(e0[i as int].1@, self.series@[i as int].1@, ts, r2));
                }
                if r.is_some() {
                    hits = hits + 1;
                }
            }
            assert(delete_at_step(e0[i as int].1, self.series@[i as int].1@, key@, value@, ts));
            assert forall|j: int| 0 <= j < i implies delete_at_step(e0[j].1, #[trigger] self.series@[j].1@, key@, value@, ts) by {
                assert(self.series@[j] == before[j]);
            }
            i = i + 1;
        }
        proof {
            assert(e0.take(n as int) =~= e0);
        }
        hits
    }

    /// Drop the `[lo, hi]` window from every series tagged `key=value`.
    /// Returns the total removed.
    pub fn delete_range_by_tag(&mut self, key: &str, value: &str, lo: i64, hi: i64) -> (removed: usize)
        requires
            old(self).wf(),
            total_points(old(self).entries()) <= usize::MAX,
        ensures
            final(self).wf(),
            final(self).spec_names() == old(self).spec_names(),
            same_slots(old(self).entries(), final(self).entries()),
            forall|j: int|
                0 <= j < old(self).entries().len() ==> #[trigger] final(self).entries()[j].1@ == if tagged(
                    old(self).entries()[j].1,
                    key@,
                    value@,
                ) {
                    old(self).entries()[j].1@.filter(|p: TsPoint<T>| !in_window(p.ts, lo, hi))
                } else {
                    old(self).entries()[j].1@
                },
            removed == total_points(old(self).entries()) - total_points(final(self).entries()),
    {
        let ghost e0 = self.series@;
        let n = self.series.len();
        let mut removed: usize = 0;
        let mut i: usize = 0;
        while i < n
            invariant
                i <= n,
                n == e0.len(),
                self.series@.len() == n,
                self.names == old(self).names,
                e0 == old(self).series@,
                ids_distinct(e0),
                names_distinct(old(self).name_entries()),
                total_points(e0) <= usize::MAX,
                forall|j: int| 0 <= j < n ==> #[trigger] self.series@[j].0 == e0[j].0,
                forall|j: int|
                    0 <= j < i ==> #[trigger] self.series@[j].1@ == (if tagged(e0[j].1, key@, value@) {
                        e0[j].1@.filter(|p: TsPoint<T>| !in_window(p.ts, lo, hi))
                    } else {
                        e0[j].1@
                    }),
                forall|j: int| 0 <= j < i ==> #[trigger] self.series@[j].1.spec_meta() == e0[j].1.spec_meta(),
                forall|j: int| i <= j < n ==> #[trigger] self.series@[j] == e0[j],
                removed == total_points(e0.take(i as int)) - total_points(self.series@.take(i as int)),
            decreases n - i,
        {
            let ghost before = self.series@;
            let k = if Self::is_tagged(&self.series[i].1, key, value) {
                self.series[i].1.delete_range(lo, hi)
            } else {
                0
            };
            proof {
                assert(self.series@.take(i as int) =~= before.take(i as int));
                lemma_total_points_step(e0, i as int);
                lemma_total_points_step(self.series@, i as int);
                lemma_total_prefix(e0, i + 1);
            }
            removed = removed + k;
            i = i + 1;
        }
        proof {
            assert(e0.take(n as int) =~= e0);
            assert(self.series@.take(n as int) =~= self.series@);
        }
        removed
    }

    /// Deregister every series whose flag is set; return them in order.
    fn evict_flagged(&mut self, flags: &Vec<bool>) -> (out: Vec<TsSeries<T>>)
        requires
            old(self).wf(),
            flags@.len() == old(self).entries().len(),
        ensures
            final(self).wf(),
            final(self).entries() == keep_by(old(self).entries(), flags@.map_values(|b: bool| !b)),
            out@ == keep_by(old(self).entries(), flags@).map_values(|e: Entry<T>| e.1),
            final(self).spec_names() == old(self).spec_names().remove_keys(
                names_of(keep_by(old(self).entries(), flags@)),
            ),
    {
        let ghost e0 = self.series@;
        let ghost nf = flags@.map_values(|b: bool| !b);
        let ghost names0 = self.spec_names();
        let mut all: Vec<Entry<T>> = Vec::new();
        std::mem::swap(&mut all, &mut self.series);
        let n = all.len();
        let mut out: Vec<TsSeries<T>> = Vec::new();
        let mut i: usize = 0;
        proof {
            assert(e0.take(0) =~= Seq::<Entry<T>>::empty());
            assert(flags@.take(0) =~= Seq::<bool>::empty());
            assert(nf.take(0) =~= Seq::<bool>::empty());
            assert(names_of(Seq::<Entry<T>>::empty()) =~= Set::<Seq<char>>::empty());
            assert(names0.remove_keys(Set::<Seq<char>>::empty()) =~= names0);
            assert(self.series@ =~= keep_by(e0.take(0), nf.take(0)));
        }
        for x in it: all.into_iter()
            invariant
                it.seq() == e0,
                i == it.index(),
                n == e0.len(),
                i <= n,
                flags@.len() == e0.len(),
                ids_distinct(e0),
                nf == flags@.map_values(|b: bool| !b),
                self.series@ == keep_by(e0.take(i as int), nf.take(i as int)),
                ids_distinct(self.series@),
                forall|j: int|
                    0 <= j < self.series@.len() ==> has_id(e0.take(i as int), #[trigger] self.series@[j].0),
                out@ == keep_by(e0.take(i as int), flags@.take(i as int)).map_values(
                    |e: Entry<T>| e.1,
                ),
                names_distinct(self.name_entries()),
                forall|j: int|
                    0 <= j < self.name_entries().len() ==> (#[trigger] self.name_entries()[j]).0.len() > 0,
                self.spec_names() == names0.remove_keys(
                    names_of(keep_by(e0.take(i as int), flags@.take(i as int))),
                ),
        {
            assert(i < n);
            proof {
                lemma_keep_by_take_step(e0, flags@, i as int);
                lemma_keep_by_take_step(e0, nf, i as int);
                assert(x == e0[i as int]);
            }
            let ghost kept_before = self.series@;
            let ghost out_before = out@;
            let ghost evicted = keep_by(e0.take(i as int), flags@.take(i as int));
            let (id, s) = x;
            if flags[i] {
                self.unindex_name(&s);
                out.push(s);
                proof {
                    assert(out@ =~= keep_by(e0.take(i + 1), flags@.take(i + 1)).map_values(
                        |e: Entry<T>| e.1,
                    ));
                    lemma_names_of_push(evicted, e0[i as int]);
                    match meta_name(s) {
                        Some(k) => {
                            assert(names0.remove_keys(names_of(evicted)).remove(k) =~= names0.remove_keys(
                                names_of(evicted).insert(k),
                            ));
                        },
                        None => {},
                    }
                    assert forall|j: int| 0 <= j < self.series@.len() implies has_id(
                        e0.take(i + 1),
                        #[trigger] self.series@[j].0,
                    ) by {
                        let k = choose|k: int| 0 <= k < i && e0.take(i as int)[k].0 == self.series@[j].0;
                        assert(e0.take(i + 1)[k] == e0.take(i as int)[k]);
                    }
                }
            } else {
                proof {
                    assert forall|j: int| 0 <= j < kept_before.len() implies kept_before[j].0 != id by {
                        if kept_before[j].0 == id {
                            let k = choose|k: int| 0 <= k < i && e0.take(i as int)[k].0 == kept_before[j].0;
                            assert(e0[k].0 == e0[i as int].0);
                        }
                    }
                }
                self.series.push((id, s));
                proof {
                    assert(self.series@ =~= kept_before.push(e0[i as int]));
                    assert forall|a: int, b: int| 0 <= a < b < self.series@.len() implies self.series@[a].0
                        != self.series@[b].0 by {
                        if b == kept_before.len() {
                            assert(kept_before[a].0 != id);
                        }
                    }
                    assert forall|j: int| 0 <= j < self.series@.len() implies has_id(
                        e0.take(i + 1),
                        #[trigger] self.series@[j].0,
                    ) by {
                        if j < kept_before.len() {
                            assert(self.series@[j] == kept_before[j]);
                            let k = choose|k: int| 0 <= k < i && e0.take(i as int)[k].0 == kept_before[j].0;
                            assert(e0.take(i + 1)[k] == e0.take(i as int)[k]);
                        } else {
                            assert(e0.take(i + 1)[i as int] == e0[i as int]);
                        }
                    }
                    assert(nf[i as int] == !flags@[i as int]);
                }
            }
            i = i + 1;
        }
        proof {
            assert(e0.take(e0.len() as int) =~= e0);
            assert(flags@.take(e0.len() as int) =~= flags@);
            assert(nf.take(e0.len() as int) =~= nf);
        }
        out
    }

    /// Deregister and return every series tagged `key=value`, in
    /// registration order.
    pub fn evict_by_tag(&mut self, key: &str, value: &str) -> (out: Vec<TsSeries<T>>)
        requires
            old(self).wf(),
        ensures
            final(self).wf(),
            final(self).entries() == old(self).entries().filter(
                |x: Entry<T>| !tagged(x.1, key@, value@),
            ),
            out@ == old(self).entries().filter(|x: Entry<T>| tagged(x.1, key@, value@)).map_values(
                |e: Entry<T>| e.1,
            ),
            final(self).spec_names() == old(self).spec_names().remove_keys(
                names_of(old(self).entries().filter(|x: Entry<T>| tagged(x.1, key@, value@))),
            ),
    {
        let ghost e0 = self.series@;
        let n = self.series.len();
        let mut flags: Vec<bool> = Vec::with_capacity(n);
        for i in 0..n
            invariant
                n == e0.len(),
                e0 == self.series@,
                flags@.len() == i,
                forall|j: int| 0 <= j < i ==> flags@[j] == tagged(#[trigger] e0[j].1, key@, value@),
        {
            let b = Self::is_tagged(&self.series[i].1, key, value);
            flags.push(b);
        }
        proof {
            lemma_keep_by_filter(e0, flags@, |x: Entry<T>| tagged(x.1, key@, value@));
            lemma_keep_by_filter(
                e0,
                flags@.map_values(|b: bool| !b),
                |x: Entry<T>| !tagged(x.1, key@, value@),
            );
        }
        self.evict_flagged(&flags)
    }

    /// Deregister and return every series whose metadata satisfies `pred`
    /// (a series without metadata never does), in registration order.
    pub fn evict_where<F: Fn(&TsSeriesMetadata) -> bool>(&mut self, pred: F) -> (out: Vec<TsSeries<T>>)
        requires
            old(self).wf(),
            forall|m: TsSeriesMetadata| pred.requires((&m,)),
        ensures
            final(self).wf(),
            exists|flags: Seq<bool>|
                {
                    &&& flags.len() == old(self).entries().len()
                    &&& forall|i: int|
                        0 <= i < flags.len() ==> match old(self).entries()[i].1.spec_meta() {
                            Some(m) => pred.ensures((&m,), #[trigger] flags[i]),
                            None => !flags[i],
                        }
                    &&& final(self).entries() == keep_by(
                        old(self).entries(),
                        flags.map_values(|b: bool| !b),
                    )
                    &&& out@ == keep_by(old(self).entries(), flags).map_values(|e: Entry<T>| e.1)
                    &&& final(self).spec_names() == old(self).spec_names().remove_keys(
                        names_of(keep_by(old(self).entries(), flags)),
                    )
                },
    {
        let ghost e0 = self.series@;
        let n = self.series.len();
        let mut flags: Vec<bool> = Vec::with_capacity(n);
        for i in 0..n
            invariant
                n == e0.len(),
                e0 == self.series@,
                forall|m: TsSeriesMetadata| pred.requires((&m,)),
                flags@.len() == i,
                forall|j: int|
                    0 <= j < i ==> match e0[j].1.spec_meta() {
                        Some(m) => pred.ensures((&m,), #[trigger] flags@[j]),
                        None => !flags@[j],
                    },
        {
            let b = match self.series[i].1.metadata() {
                Some(m) => pred(m),
                None => false,
            };
            flags.push(b);
        }
        let ghost f = flags@;
        let out = self.evict_flagged(&flags);
        assert(f.len() == e0.len());
        out
    }

    /// Drop every series and every indexed name.
    pub fn clear(&mut self)
        ensures
            final(self).wf(),
            final(self).entries() == Seq::<Entry<T>>::empty(),
            final(self).spec_names() == Map::<Seq<char>, u64>::empty(),
    {
        self.series.clear();
        self.names.clear();
        assert(self.name_entries() =~= Seq::<(Seq<char>, u64)>::empty());
        assert(self.spec_names() =~= Map::<Seq<char>, u64>::empty());
    }
}

impl<T: Clone> Default for TsCollection<T> {
    fn default() -> (c: Self)
        ensures
            c.wf(),
            c.entries() == Seq::<Entry<T>>::empty(),
            c.spec_names() == Map::<Seq<char>, u64>::empty(),
    {
        TsCollection::new()
    }
}

impl<T: Clone> Clone for TsCollection<T> {
    /// A copy of every series (points cloned, ids kept) and of the name index.
    fn clone(&self) -> (c: Self)
        ensures
            self.wf() ==> c.wf(),
            c.entries().len() == self.entries().len(),
            forall|i: int|
                0 <= i < self.entries().len() ==> #[trigger] c.entries()[i].0 == self.entries()[i].0
                    && points_cloned(self.entries()[i].1@, c.entries()[i].1@),
            c.name_entries() == self.name_entries(),
    {
        let n = self.series.len();
        let mut series: Vec<Entry<T>> = Vec::with_capacity(n);
        let mut i: usize = 0;
        while i < n
            invariant
                n == self.series@.len(),
                i <= n,
                series@.len() == i,
                forall|j: int|
                    0 <= j < i ==> #[trigger] series@[j].0 == self.series@[j].0 && points_cloned(
                        self.series@[j].1@,
                        series@[j].1@,
                    ),
            decreases n - i,
        {
            let s = self.series[i].1.clone();
            series.push((self.series[i].0, s));
            i = i + 1;
        }
        let mut names: Vec<(String, u64)> = Vec::with_capacity(self.names.len());
        for i in 0..self.names.len()
            invariant
                names@.map_values(|e: (String, u64)| (e.0@, e.1)) == self.name_entries().take(
                    i as int,
                ),
        {
            let ghost prev = names@;
            let k = self.names[i].0.clone();
            let id = self.names[i].1;
            names.push((k, id));
            assert(names@ == prev.push((k, id)));
            assert(self.name_entries()[i as int] == (k@, id));
            assert(names@.map_values(|e: (String, u64)| (e.0@, e.1)) =~= prev.map_values(
                |e: (String, u64)| (e.0@, e.1),
            ).push((k@, id)));
            assert(self.name_entries().take(i + 1) =~= self.name_entries().take(i as int).push(
                (k@, id),
            ));
            assert(names@.map_values(|e: (String, u64)| (e.0@, e.1)) =~= self.name_entries().take(
                i + 1,
            ));
        }
        assert(self.name_entries().take(self.names@.len() as int) =~= self.name_entries());
        let c = TsCollection { series, names };
        proof {
            assert forall|i: int| 0 <= i < self.entries().len() implies #[trigger] c.entries()[i].0
                == self.entries()[i].0 && points_cloned(self.entries()[i].1@, c.entries()[i].1@) by {
                assert(c.series@[i].0 == self.series@[i].0);
            }
            if self.wf() {
                assert forall|a: int, b: int| 0 <= a < b < c.series@.len() implies c.series@[a].0
                    != c.series@[b].0 by {
                    assert(c.series@[a].0 == self.series@[a].0);
                    assert(c.series@[b].0 == self.series@[b].0);
                }
            }
        }
        c
    }
}

// ---------- values at an instant, and their fold ----------

/// The value of the last point at or before `ts`, if any.
pub open spec fn last_before<T>(s: Seq<TsPoint<T>>, ts: i64) -> Option<T>
    decreases s.len(),
{
    if s.len() == 0 {
        None
    } else if s.last().ts <= ts {
        Some(s.last().value)
    } else {
        last_before(s.drop_last(), ts)
    }
}

/// The value each series holds at `ts` (its last point at or before `ts`),
/// in order; a series with no such point contributes nothing.
pub open spec fn values_at_spec<T>(ss: Seq<TsSeries<T>>, ts: i64) -> Seq<T>
    decreases ss.len(),
{
    if ss.len() == 0 {
        Seq::empty()
    } else {
        let prev = values_at_spec(ss.drop_last(), ts);
        match last_before(ss.last()@, ts) {
            Some(v) => prev.push(v),
            None => prev,
        }
    }
}

proof fn lemma_last_before_at<T>(s: Seq<TsPoint<T>>, ts: i64, i: int)
    requires
        0 <= i < s.len(),
        s[i].ts <= ts,
        forall|j: int| i < j < s.len() ==> s[j].ts > ts,
    ensures
        last_before(s, ts) == Some(s[i].value),
    decreases s.len(),
{
    if i < s.len() - 1 {
        lemma_last_before_at(s.drop_last(), ts, i);
    }
}

proof fn lemma_last_before_none<T>(s: Seq<TsPoint<T>>, ts: i64)
    requires
        forall|j: int| 0 <= j < s.len() ==> s[j].ts > ts,
    ensures
        last_before(s, ts) is None,
    decreases s.len(),
{
    if s.len() > 0 {
        lemma_last_before_none(s.drop_last(), ts);
    }
}

/// A clone of the value each of `series` holds at `ts`, in order, skipping those with
/// no point at or before `ts`.
pub fn values_at_of<T: Clone>(series: &Vec<&TsSeries<T>>, ts: i64) -> (r: Vec<T>)
    ensures
        values_cloned(values_at_spec(series@.map_values(|s: &TsSeries<T>| *s), ts), r@),
{
    let ghost ss = series@.map_values(|s: &TsSeries<T>| *s);
    let mut out: Vec<T> = Vec::new();
    let n = series.len();
    let mut i: usize = 0;
    while i < n
        invariant
            i <= n == series@.len() == ss.len(),
            ss == series@.map_values(|s: &TsSeries<T>| *s),
            values_cloned(values_at_spec(ss.take(i as int), ts), out@),
        decreases n - i,
    {
        let ghost t = ss.take(i + 1);
        assert(t.drop_last() =~= ss.take(i as int));
        assert(t.last() == *series@[i as int]);
        let s = series[i];
        match s.nearest_before(ts) {
            Some(p) => {
                proof {
                    let k = choose|k: int|
                        0 <= k < s@.len() && point_cloned(s@[k], p) && p.ts <= ts && forall|j: int|
                            k < j < s@.len() ==> s@[j].ts > ts;
                    lemma_last_before_at(s@, ts, k);
                }
                out.push(p.value);
            },
            None => {
                proof {
                    lemma_last_before_none(s@, ts);
                }
            },
        }
        i = i + 1;
    }
    assert(ss.take(n as int) =~= ss);
    out
}

impl<T: Clone> TsCollection<T> {
    /// A clone of the value every series holds at `ts` (its nearest point at or before
    /// `ts`), in registration order; series with no such point are skipped.
    pub fn values_at(&self, ts: i64) -> (r: Vec<T>)
        ensures
            values_cloned(values_at_spec(self.entries().map_values(|e: Entry<T>| e.1), ts), r@),
    {
        let all = self.series();
        values_at_of(&all, ts)
    }

    /// The same, restricted to the series tagged `key=value`.
    pub fn values_at_by_tag(&self, key: &str, value: &str, ts: i64) -> (r: Vec<T>)
        ensures
            values_cloned(
                values_at_spec(
                    self.entries().filter(|e: Entry<T>| tagged(e.1, key@, value@)).map_values(
                        |e: Entry<T>| e.1,
                    ),
                    ts,
                ),
                r@,
            ),
    {
        let some = self.by_tag(key, value);
        values_at_of(&some, ts)
    }
}

/// The smallest value of a run, keeping a running minimum that yields to
/// each value it is not below.
pub open spec fn run_min<T: TsNumeric>(s: Seq<T>) -> Option<T>
    decreases s.len(),
{
    if s.len() == 0 {
        None
    } else {
        match run_min(s.drop_last()) {
            Some(m) => if m.num_lt(s.last()) {
                Some(m)
            } else {
                Some(s.last())
            },
            None => Some(s.last()),
        }
    }
}

/// The largest value of a run, keeping a running maximum that yields to
/// each value it is not above.
pub open spec fn run_max<T: TsNumeric>(s: Seq<T>) -> Option<T>
    decreases s.len(),
{
    if s.len() == 0 {
        None
    } else {
        match run_max(s.drop_last()) {
            Some(m) => if s.last().num_lt(m) {
                Some(m)
            } else {
                Some(s.last())
            },
            None => Some(s.last()),
        }
    }
}

/// How many values a run has, their sum (from the zero, in order), and its
/// smallest and largest value: what every cross-series aggregate is read
/// from.
pub struct TsFold<T> {
    pub count: usize,
    pub sum: T,
    pub min: T,
    pub max: T,
}

/// The fold of `vals`; `None` when there are none.
pub fn fold_values<T: TsNumeric>(vals: &Vec<T>) -> (r: Option<TsFold<T>>)
    ensures
        match r {
            None => vals@.len() == 0,
            Some(f) => {
                &&& vals@.len() > 0
                &&& f.count == vals@.len()
                &&& f.sum == fold_sum(vals@)
                &&& run_min(vals@) == Some(f.min)
                &&& run_max(vals@) == Some(f.max)
            },
        },
{
    let n = vals.len();
    if n == 0 {
        return None;
    }
    let mut acc = T::ts_zero();
    let mut min = vals[0];
    let mut max = vals[0];
    let mut i: usize = 0;
    assert(vals@.take(0) =~= Seq::<T>::empty());
    while i < n
        invariant
            0 < n == vals@.len(),
            i <= n,
            acc == fold_sum(vals@.take(i as int)),
            i > 0 ==> run_min(vals@.take(i as int)) == Some(min),
            i > 0 ==> run_max(vals@.take(i as int)) == Some(max),
            i == 0 ==> min == vals@[0] && max == vals@[0],
        decreases n - i,
    {
        let v = vals[i];
        let ghost t = vals@.take(i + 1);
        assert(t.drop_last() =~= vals@.take(i as int));
        assert(t.last() == v);
        acc = acc.ts_add(v);
        if i > 0 {
            if !min.ts_lt(v) {
                min = v;
            }
            if !v.ts_lt(max) {
                max = v;
            }
        }
        i = i + 1;
    }
    assert(vals@.take(n as int) =~= vals@);
    Some(TsFold { count: n, sum: acc, min, max })
}

/// Registering a series and then deregistering its id hands back the empty
/// series carrying that metadata, and leaves the collection as it was: the
/// same entries, in the same order, and the same name index (the name is
/// free again); the id is gone, so deregistering it again finds nothing.
pub proof fn lemma_register_then_deregister<T: Clone>(
    c0: TsCollection<T>,
    c1: TsCollection<T>,
    c2: TsCollection<T>,
    meta: TsSeriesMetadata,
    r1: Result<u64, TsCollectionError>,
    r2: Option<TsSeries<T>>,
)
    requires
        c0.wf(),
        c1.wf(),
        register_result(c0, c1, meta, r1),
        r1 is Ok,
        deregister_result(c1, c2, meta.id, r2),
    ensures
        r2 matches Some(s) && s@ == Seq::<TsPoint<T>>::empty() && s.spec_meta() == Some(meta),
        c2.entries() == c0.entries(),
        c2.spec_names() == c0.spec_names(),
        !has_id(c2.entries(), meta.id),
{
    let e1 = c1.entries();
    let last = e1.len() - 1;
    assert(e1[last].0 == meta.id);
    assert(has_id(e1, meta.id));
    match r2 {
        Some(s) => {
            let i = choose|i: int| 0 <= i < e1.len() && e1[i] == (meta.id, s) && c2.entries() == e1.remove(i)
                && c2.spec_names() == match meta_name(s) {
                Some(k) => c1.spec_names().remove(k),
                None => c1.spec_names(),
            };
            assert(ids_distinct(e1));
            assert(i == last);
            assert(e1.remove(last) =~= e1.drop_last());
            assert(meta_name(s) == Some(meta.name@));
            if meta.name@.len() > 0 {
                assert(!c0.spec_names().contains_key(meta.name@));
                assert(c2.spec_names() =~= c0.spec_names());
            } else {
                assert(c1.spec_names() == c0.spec_names());
                assert(!c0.spec_names().contains_key(meta.name@)) by {
                    if c0.spec_names().contains_key(meta.name@) {
                        let j = choose|j: int| 0 <= j < c0.name_entries().len() && c0.name_entries()[j].0 == meta.name@;
                        assert(c0.name_entries()[j].0.len() > 0);
                    }
                }
                assert(c2.spec_names() =~= c0.spec_names());
            }
        },
        None => {},
    }
}

} // verus!
