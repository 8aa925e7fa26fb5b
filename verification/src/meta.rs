//! Per-series identity, schema, tags, normalised attributes, declared wire
//! format, and downstream-dependency edges.

use vstd::prelude::*;

use crate::text::{
    ascii_lower, ascii_lower_string, key_lt, lemma_key_lt_transitive, lemma_key_lt_trichotomy,
    str_key_lt, trim_str, trimmed, TsIntoString,
};

verus! {

/// Abstract entry list of a text map: `(key, value)` pairs.
pub type EntriesView = Seq<(Seq<char>, Seq<char>)>;

/// Keys strictly increase in the key order (so each key occurs once).
pub open spec fn keys_increasing(e: EntriesView) -> bool {
    forall|i: int, j: int| 0 <= i < j < e.len() ==> key_lt(e[i].0, e[j].0)
}

/// The map an entry list denotes.
pub open spec fn entries_map(e: EntriesView) -> Map<Seq<char>, Seq<char>> {
    Map::new(
        |k: Seq<char>| exists|i: int| 0 <= i < e.len() && e[i].0 == k,
        |k: Seq<char>| e[key_index(e, k)].1,
    )
}

/// Some position holding key `k` (the only one when keys are increasing).
pub open spec fn key_index(e: EntriesView, k: Seq<char>) -> int {
    choose|i: int| 0 <= i < e.len() && e[i].0 == k
}

proof fn lemma_entries_map_at(e: EntriesView, idx: int)
    requires
        keys_increasing(e),
        0 <= idx < e.len(),
    ensures
        entries_map(e).contains_key(e[idx].0),
        entries_map(e)[e[idx].0] == e[idx].1,
{
    let k = e[idx].0;
    assert(exists|i: int| 0 <= i < e.len() && e[i].0 == k);
    let j = key_index(e, k);
    if j != idx {
        if j < idx {
            lemma_key_lt_trichotomy(e[j].0, e[idx].0);
        } else {
            lemma_key_lt_trichotomy(e[idx].0, e[j].0);
        }
    }
    assert(entries_map(e)[k] == e[j].1);
}

/// Label set: a map from text keys to text values, kept in key order
/// (byte order of the keys). Case-sensitive.
#[derive(Debug, PartialEq, Eq)]
pub struct TsTags {
    entries: Vec<(String, String)>,
}

impl TsTags {
    /// The entries as abstract text pairs, in key order.
    pub closed spec fn entries_view(&self) -> EntriesView {
        self.entries@.map_values(|e: (String, String)| (e.0@, e.1@))
    }

    #[verifier::type_invariant]
    spec fn inv(&self) -> bool {
        keys_increasing(self.entries_view())
    }

    /// The map the tags denote.
    pub open spec fn spec_map(&self) -> Map<Seq<char>, Seq<char>> {
        entries_map(self.entries_view())
    }

    pub fn new() -> (t: Self)
        ensures
            t.entries_view() == Seq::<(Seq<char>, Seq<char>)>::empty(),
            t.spec_map() == Map::<Seq<char>, Seq<char>>::empty(),
    {
        let t = TsTags { entries: Vec::new() };
        assert(t.entries_view() =~= Seq::<(Seq<char>, Seq<char>)>::empty());
        assert(t.spec_map() =~= Map::<Seq<char>, Seq<char>>::empty());
        t
    }

    /// Index of the first entry whose key is not below `key`.
    fn lower_bound(&self, key: &str) -> (i: usize)
        ensures
            i <= self.entries_view().len(),
            forall|j: int| 0 <= j < i ==> key_lt(#[trigger] self.entries_view()[j].0, key@),
            i < self.entries_view().len() ==> !key_lt(self.entries_view()[i as int].0, key@),
    {
        let mut i: usize = 0;
        while i < self.entries.len() && str_key_lt(self.entries[i].0.as_str(), key)
            invariant
                i <= self.entries@.len(),
                forall|j: int| 0 <= j < i ==> key_lt(#[trigger] self.entries_view()[j].0, key@),
            decreases self.entries@.len() - i,
        {
            i = i + 1;
        }
        i
    }

    /// Position of `key`, if present.
    fn find(&self, key: &str) -> (r: Option<usize>)
        ensures
            match r {
                Some(i) => i < self.entries_view().len() && self.entries_view()[i as int].0 == key@,
                None => !self.spec_map().contains_key(key@),
            },
    {
        proof {
            use_type_invariant(self);
        }
        let i = self.lower_bound(key);
        if i < self.entries.len() && !str_key_lt(key, self.entries[i].0.as_str()) {
            proof {
                lemma_key_lt_trichotomy(self.entries_view()[i as int].0, key@);
            }
            Some(i)
        } else {
            proof {
                let e = self.entries_view();
                if exists|j: int| 0 <= j < e.len() && e[j].0 == key@ {
                    let j = choose|j: int| 0 <= j < e.len() && e[j].0 == key@;
                    lemma_key_lt_trichotomy(key@, key@);
                    if j > i {
                        lemma_key_lt_trichotomy(e[i as int].0, key@);
                    }
                }
            }
            None
        }
    }

    /// Insert `key = value`; returns the value previously bound to `key`.
    pub fn insert(&mut self, key: String, value: String) -> (r: Option<String>)
        ensures
            final(self).spec_map() == old(self).spec_map().insert(key@, value@),
            match r {
                Some(v) => old(self).spec_map().contains_key(key@) && v@ == old(self).spec_map()[key@],
                None => !old(self).spec_map().contains_key(key@),
            },
    {
        proof {
            use_type_invariant(&*self);
        }
        let ghost e = self.entries_view();
        let i = self.lower_bound(key.as_str());
        let present = i < self.entries.len() && !str_key_lt(key.as_str(), self.entries[i].0.as_str());
        let mut entries: Vec<(String, String)> = Vec::new();
        std::mem::swap(&mut entries, &mut self.entries);
        let mut result: Option<String> = None;
        if present {
            proof {
                lemma_key_lt_trichotomy(e[i as int].0, key@);
                lemma_entries_map_at(e, i as int);
            }
            let old_entry = entries.remove(i);
            result = Some(old_entry.1);
            entries.insert(i, (key, value));
        } else {
            entries.insert(i, (key, value));
        }
        let ghost e2 = entries@.map_values(|x: (String, String)| (x.0@, x.1@));
        proof {
            if present {
                assert(e2 =~= e.update(i as int, (key@, value@)));
            } else {
                assert(e2 =~= e.insert(i as int, (key@, value@)));
            }
            assert forall|a: int, b: int| 0 <= a < b < e2.len() implies key_lt(e2[a].0, e2[b].0) by {
                lemma_insert_sorted_pair(e, i as int, key@, value@, present, a, b);
            }
            lemma_map_after_insert(e, e2, i as int, key@, value@, present);
            if !present {
                if exists|j: int| 0 <= j < e.len() && e[j].0 == key@ {
                    let j = choose|j: int| 0 <= j < e.len() && e[j].0 == key@;
                    lemma_key_lt_trichotomy(key@, key@);
                    if j > i {
                        lemma_key_lt_trichotomy(e[i as int].0, key@);
                    }
                }
            }
        }
        self.entries = entries;
        result
    }

    /// The value bound to `key`.
    pub fn get(&self, key: &str) -> (r: Option<&String>)
        ensures
            match r {
                Some(v) => self.spec_map().contains_key(key@) && v@ == self.spec_map()[key@],
                None => !self.spec_map().contains_key(key@),
            },
    {
        proof {
            use_type_invariant(self);
        }
        match self.find(key) {
            Some(i) => {
                proof {
                    lemma_entries_map_at(self.entries_view(), i as int);
                }
                Some(&self.entries[i].1)
            },
            None => None,
        }
    }

    pub fn contains_key(&self, key: &str) -> (b: bool)
        ensures
            b == self.spec_map().contains_key(key@),
    {
        proof {
            use_type_invariant(self);
        }
        match self.find(key) {
            Some(i) => {
                proof {
                    lemma_entries_map_at(self.entries_view(), i as int);
                }
                true
            },
            None => false,
        }
    }

    /// Remove `key`; returns the value it was bound to.
    pub fn remove(&mut self, key: &str) -> (r: Option<String>)
        ensures
            final(self).spec_map() == old(self).spec_map().remove(key@),
            match r {
                Some(v) => old(self).spec_map().contains_key(key@) && v@ == old(self).spec_map()[key@],
                None => !old(self).spec_map().contains_key(key@),
            },
    {
        proof {
            use_type_invariant(&*self);
        }
        let ghost e = self.entries_view();
        match self.find(key) {
            Some(i) => {
                proof {
                    lemma_entries_map_at(e, i as int);
                }
                let mut entries: Vec<(String, String)> = Vec::new();
                std::mem::swap(&mut entries, &mut self.entries);
                let removed = entries.remove(i);
                let ghost e2 = entries@.map_values(|x: (String, String)| (x.0@, x.1@));
                proof {
                    assert(e2 =~= e.remove(i as int));
                    assert forall|a: int, b: int| 0 <= a < b < e2.len() implies key_lt(
                        e2[a].0,
                        e2[b].0,
                    ) by {
                        let a0 = if a < i { a } else { a + 1 };
                        let b0 = if b < i { b } else { b + 1 };
                        assert(e2[a] == e[a0]);
                        assert(e2[b] == e[b0]);
                    }
                    lemma_map_after_remove(e, e2, i as int);
                }
                self.entries = entries;
                Some(removed.1)
            },
            None => {
                assert(self.spec_map() =~= self.spec_map().remove(key@));
                None
            },
        }
    }

    pub fn len(&self) -> (n: usize)
        ensures
            n == self.spec_map().len(),
    {
        proof {
            use_type_invariant(self);
            lemma_dom_len(self.entries_view());
        }
        self.entries.len()
    }

    pub fn is_empty(&self) -> (b: bool)
        ensures
            b == (self.spec_map().len() == 0),
    {
        proof {
            use_type_invariant(self);
            lemma_dom_len(self.entries_view());
        }
        self.entries.len() == 0
    }

    /// The `(key, value)` pairs in key order.
    pub fn entries(&self) -> (s: &[(String, String)])
        ensures
            s@.map_values(|e: (String, String)| (e.0@, e.1@)) == self.entries_view(),
    {
        self.entries.as_slice()
    }
}

impl Clone for TsTags {
    fn clone(&self) -> (c: Self)
        ensures
            c.entries_view() == self.entries_view(),
            c.spec_map() == self.spec_map(),
    {
        proof {
            use_type_invariant(self);
        }
        let mut entries: Vec<(String, String)> = Vec::new();
        for i in 0..self.entries.len()
            invariant
                keys_increasing(self.entries_view()),
                entries@.map_values(|x: (String, String)| (x.0@, x.1@)) == self.entries_view().take(
                    i as int,
                ),
        {
            let k = self.entries[i].0.clone();
            let v = self.entries[i].1.clone();
            let ghost prev = entries@;
            entries.push((k, v));
            assert(entries@ =~= prev.push((k, v)));
            assert(self.entries_view().take(i + 1) =~= self.entries_view().take(i as int).push(
                self.entries_view()[i as int],
            ));
            assert(entries@.map_values(|x: (String, String)| (x.0@, x.1@))
                =~= self.entries_view().take(i + 1));
        }
        assert(self.entries_view().take(self.entries@.len() as int) =~= self.entries_view());
        TsTags { entries }
    }
}

impl Default for TsTags {
    fn default() -> (t: Self)
        ensures
            t.spec_map() == Map::<Seq<char>, Seq<char>>::empty(),
    {
        TsTags::new()
    }
}

proof fn lemma_dom_len(e: EntriesView)
    requires
        keys_increasing(e),
    ensures
        entries_map(e).dom().finite(),
        entries_map(e).dom().len() == e.len(),
    decreases e.len(),
{
    let m = entries_map(e);
    if e.len() == 0 {
        assert(m.dom() =~= Set::<Seq<char>>::empty());
    } else {
        let t = e.drop_last();
        assert(keys_increasing(t));
        lemma_dom_len(t);
        let mt = entries_map(t);
        assert(m.dom() =~= mt.dom().insert(e.last().0)) by {
            assert forall|k: Seq<char>| m.dom().contains(k) implies mt.dom().insert(
                e.last().0,
            ).contains(k) by {
                let j = choose|j: int| 0 <= j < e.len() && e[j].0 == k;
                if j < e.len() - 1 {
                    assert(t[j].0 == k);
                }
            }
            assert forall|k: Seq<char>| mt.dom().insert(e.last().0).contains(k) implies m.dom().contains(
                k,
            ) by {
                if k != e.last().0 {
                    let j = choose|j: int| 0 <= j < t.len() && t[j].0 == k;
                    assert(e[j].0 == k);
                } else {
                    assert(e[e.len() - 1].0 == k);
                }
            }
        }
        if mt.dom().contains(e.last().0) {
            let j = choose|j: int| 0 <= j < t.len() && t[j].0 == e.last().0;
            assert(key_lt(e[j].0, e[e.len() - 1].0));
            lemma_key_lt_trichotomy(e.last().0, e.last().0);
        }
    }
}

proof fn lemma_insert_sorted_pair(
    e: EntriesView,
    i: int,
    k: Seq<char>,
    v: Seq<char>,
    present: bool,
    a: int,
    b: int,
)
    requires
        keys_increasing(e),
        0 <= i <= e.len(),
        forall|j: int| 0 <= j < i ==> key_lt(#[trigger] e[j].0, k),
        i < e.len() ==> !key_lt(e[i].0, k),
        present ==> i < e.len() && e[i].0 == k,
        !present ==> (i < e.len() ==> key_lt(k, e[i].0)),
        0 <= a < b,
        present ==> b < e.len(),
        !present ==> b < e.len() + 1,
    ensures
        key_lt(
            (if present {
                e.update(i, (k, v))
            } else {
                e.insert(i, (k, v))
            })[a].0,
            (if present {
                e.update(i, (k, v))
            } else {
                e.insert(i, (k, v))
            })[b].0,
        ),
{
    if present {
        let e2 = e.update(i, (k, v));
        assert(e2[a].0 == e[a].0);
        assert(e2[b].0 == e[b].0);
    } else {
        let e2 = e.insert(i, (k, v));
        if b < i {
            assert(e2[a] == e[a] && e2[b] == e[b]);
        } else if b == i {
            assert(e2[a] == e[a]);
        } else if a < i {
            assert(e2[a] == e[a] && e2[b] == e[b - 1]);
            lemma_key_lt_transitive(e[a].0, k, e[i].0);
            if b - 1 > i {
                lemma_key_lt_transitive(e[a].0, e[i].0, e[b - 1].0);
            }
        } else if a == i {
            assert(e2[b] == e[b - 1]);
            if b - 1 > i {
                lemma_key_lt_transitive(k, e[i].0, e[b - 1].0);
            }
        } else {
            assert(e2[a] == e[a - 1] && e2[b] == e[b - 1]);
        }
    }
}

proof fn lemma_map_after_insert(
    e: EntriesView,
    e2: EntriesView,
    i: int,
    k: Seq<char>,
    v: Seq<char>,
    present: bool,
)
    requires
        keys_increasing(e),
        keys_increasing(e2),
        0 <= i <= e.len(),
        present ==> i < e.len() && e[i].0 == k && e2 == e.update(i, (k, v)),
        !present ==> e2 == e.insert(i, (k, v)),
    ensures
        entries_map(e2) == entries_map(e).insert(k, v),
{
    let m = entries_map(e);
    let m2 = entries_map(e2);
    assert(e2[i] == (k, v));
    lemma_entries_map_at(e2, i);
    assert forall|x: Seq<char>| m2.dom().contains(x) <==> m.insert(k, v).dom().contains(x) by {
        if m2.dom().contains(x) && x != k {
            let j = choose|j: int| 0 <= j < e2.len() && e2[j].0 == x;
            let j0 = if present || j < i { j } else { j - 1 };
            assert(e[j0].0 == x);
        }
        if m.dom().contains(x) && x != k {
            let j = choose|j: int| 0 <= j < e.len() && e[j].0 == x;
            let j2 = if present || j < i { j } else { j + 1 };
            assert(e2[j2].0 == x);
        }
    }
    assert forall|x: Seq<char>| #[trigger] m2.dom().contains(x) implies m2[x] == m.insert(k, v)[x] by {
        if x != k {
            let j = choose|j: int| 0 <= j < e2.len() && e2[j].0 == x;
            let j0 = if present || j < i { j } else { j - 1 };
            assert(e[j0] == e2[j]);
            lemma_entries_map_at(e2, j);
            lemma_entries_map_at(e, j0);
        }
    }
    assert(m2 =~= m.insert(k, v));
}

proof fn lemma_map_after_remove(e: EntriesView, e2: EntriesView, i: int)
    requires
        keys_increasing(e),
        keys_increasing(e2),
        0 <= i < e.len(),
        e2 == e.remove(i),
    ensures
        entries_map(e2) == entries_map(e).remove(e[i].0),
{
    let k = e[i].0;
    let m = entries_map(e);
    let m2 = entries_map(e2);
    assert forall|x: Seq<char>| m2.dom().contains(x) <==> m.remove(k).dom().contains(x) by {
        if m2.dom().contains(x) {
            let j = choose|j: int| 0 <= j < e2.len() && e2[j].0 == x;
            let j0 = if j < i { j } else { j + 1 };
            assert(e[j0].0 == x);
            if x == k {
                if j0 < i {
                    lemma_key_lt_trichotomy(x, x);
                } else {
                    lemma_key_lt_trichotomy(x, x);
                }
            }
        }
        if m.dom().contains(x) && x != k {
            let j = choose|j: int| 0 <= j < e.len() && e[j].0 == x;
            assert(j != i);
            let j2 = if j < i { j } else { j - 1 };
            assert(e2[j2].0 == x);
        }
    }
    assert forall|x: Seq<char>| #[trigger] m2.dom().contains(x) implies m2[x] == m.remove(k)[x] by {
        let j = choose|j: int| 0 <= j < e2.len() && e2[j].0 == x;
        let j0 = if j < i { j } else { j + 1 };
        assert(e[j0] == e2[j]);
        lemma_entries_map_at(e2, j);
        lemma_entries_map_at(e, j0);
    }
    assert(m2 =~= m.remove(k));
}
} // verus!

verus! {

/// Free-form attribute bag with canonicalising inserts: key + value are
/// trimmed and ASCII-lowercased. Non-ASCII keys are rejected (returned as the
/// `Err` value) rather than mangled by ambiguous Unicode case folding.
#[derive(Debug, PartialEq, Eq)]
pub struct TsAttrs {
    map: TsTags,
}

/// The canonical form of an attribute key or value.
pub open spec fn normalised(s: Seq<char>) -> Seq<char> {
    ascii_lower(trimmed(s))
}

fn normalise(s: &str) -> (t: String)
    ensures
        t@ == normalised(s@),
{
    let trimmed_text = trim_str(s);
    ascii_lower_string(trimmed_text.as_str())
}

impl TsAttrs {
    /// The normalised attribute map.
    pub open spec fn spec_map(&self) -> Map<Seq<char>, Seq<char>> {
        self.spec_tags().spec_map()
    }

    pub closed spec fn spec_tags(&self) -> TsTags {
        self.map
    }

    pub fn new() -> (a: Self)
        ensures
            a.spec_map() == Map::<Seq<char>, Seq<char>>::empty(),
    {
        TsAttrs { map: TsTags::new() }
    }

    /// Insert a normalised key=value. Returns `Err(key)` (the trimmed key) if
    /// the trimmed key contains non-ASCII characters.
    pub fn insert(&mut self, key: &str, value: &str) -> (r: Result<(), String>)
        ensures
            match r {
                Ok(()) => vstd::utf8::is_ascii_chars(trimmed(key@)) && final(self).spec_map()
                    == old(self).spec_map().insert(normalised(key@), normalised(value@)),
                Err(k) => !vstd::utf8::is_ascii_chars(trimmed(key@)) && k@ == trimmed(key@)
                    && final(self).spec_map() == old(self).spec_map(),
            },
    {
        let k = trim_str(key);
        if !k.as_str().is_ascii() {
            return Err(k);
        }
        let kn = ascii_lower_string(k.as_str());
        let vn = normalise(value);
        self.map.insert(kn, vn);
        Ok(())
    }

    /// The value bound to the normalised `key`.
    pub fn get(&self, key: &str) -> (r: Option<&str>)
        ensures
            match r {
                Some(v) => self.spec_map().contains_key(normalised(key@)) && v@ == self.spec_map()[normalised(key@)],
                None => !self.spec_map().contains_key(normalised(key@)),
            },
    {
        let k = normalise(key);
        match self.map.get(k.as_str()) {
            Some(v) => Some(v.as_str()),
            None => None,
        }
    }

    /// Remove the normalised `key`; returns the value it was bound to.
    pub fn remove(&mut self, key: &str) -> (r: Option<String>)
        ensures
            final(self).spec_map() == old(self).spec_map().remove(normalised(key@)),
            match r {
                Some(v) => old(self).spec_map().contains_key(normalised(key@)) && v@ == old(self).spec_map()[normalised(key@)],
                None => !old(self).spec_map().contains_key(normalised(key@)),
            },
    {
        let k = normalise(key);
        self.map.remove(k.as_str())
    }

    /// The `(key, value)` pairs, in key order.
    pub fn iter(&self) -> (v: Vec<(&str, &str)>)
        ensures
            v@.map_values(|e: (&str, &str)| (e.0@, e.1@)) == self.spec_tags().entries_view(),
    {
        let entries = self.map.entries();
        let mut v: Vec<(&str, &str)> = Vec::new();
        for i in 0..entries.len()
            invariant
                entries@.map_values(|e: (String, String)| (e.0@, e.1@)) == self.spec_tags().entries_view(),
                v@.map_values(|e: (&str, &str)| (e.0@, e.1@)) == self.spec_tags().entries_view().take(
                    i as int,
                ),
        {
            let ghost prev = v@;
            let pair = (entries[i].0.as_str(), entries[i].1.as_str());
            v.push(pair);
            proof {
                assert(v@ =~= prev.push(pair));
                let ev = self.spec_tags().entries_view();
                assert(ev[i as int] == (entries@[i as int].0@, entries@[i as int].1@));
                assert(ev.take(i + 1) =~= ev.take(i as int).push(ev[i as int]));
                assert(v@.map_values(|e: (&str, &str)| (e.0@, e.1@)) =~= ev.take(i + 1));
            }
        }
        proof {
            let ev = self.spec_tags().entries_view();
            assert(ev.take(entries@.len() as int) =~= ev);
        }
        v
    }

    pub fn len(&self) -> (n: usize)
        ensures
            n == self.spec_map().len(),
    {
        self.map.len()
    }

    pub fn is_empty(&self) -> (b: bool)
        ensures
            b == (self.spec_map().len() == 0),
    {
        self.map.is_empty()
    }

    /// Does this attribute set match `key=value` after normalising both?
    pub fn matches(&self, key: &str, value: &str) -> (b: bool)
        ensures
            b == (self.spec_map().contains_key(normalised(key@)) && self.spec_map()[normalised(key@)]
                == normalised(value@)),
    {
        let want = normalise(value);
        match self.get(key) {
            Some(v) => {
                let w: &str = want.as_str();
                let eq = !crate::text::str_key_lt(v, w) && !crate::text::str_key_lt(w, v);
                proof {
                    crate::text::lemma_key_lt_trichotomy(v@, w@);
                }
                eq
            },
            None => false,
        }
    }
}

impl Clone for TsAttrs {
    fn clone(&self) -> (c: Self)
        ensures
            c.spec_map() == self.spec_map(),
    {
        TsAttrs { map: self.map.clone() }
    }
}

impl Default for TsAttrs {
    fn default() -> (a: Self)
        ensures
            a.spec_map() == Map::<Seq<char>, Seq<char>>::empty(),
    {
        TsAttrs::new()
    }
}

#[derive(Copy, Clone, Debug, PartialEq, Eq)]
pub enum TsNumericKind {
    Gauge,
    Counter,
    Rate,
}

/// Semantic shape of a series' values.
#[derive(Clone, Debug, PartialEq, Eq)]
pub enum TsSchema {
    Anonymous,
    Numeric { unit: Option<String>, kind: TsNumericKind },
    Schemaless,
    Custom { schema_type: String },
}

impl Default for TsSchema {
    fn default() -> (s: Self)
        ensures
            s == TsSchema::Anonymous,
    {
        TsSchema::Anonymous
    }
}

/// Declared preferred wire format.
#[derive(Clone, Debug, PartialEq, Eq)]
pub enum TsFormat {
    Json,
    Cbor,
    Gorilla,
    Yaml,
    GzipJson,
    GzipCbor,
    GzipGorilla,
    Custom(String),
}

impl TsFormat {
    /// The codec name a format is registered under.
    pub open spec fn spec_codec_name(&self) -> Seq<char> {
        match self {
            TsFormat::Json => "json"@,
            TsFormat::Cbor => "cbor"@,
            TsFormat::Gorilla => "gorilla"@,
            TsFormat::Yaml => "yaml"@,
            TsFormat::GzipJson => "gzip+json"@,
            TsFormat::GzipCbor => "gzip+cbor"@,
            TsFormat::GzipGorilla => "gzip+gorilla"@,
            TsFormat::Custom(s) => s@,
        }
    }

    pub fn codec_name(&self) -> (n: &str)
        ensures
            n@ == self.spec_codec_name(),
    {
        match self {
            TsFormat::Json => "json",
            TsFormat::Cbor => "cbor",
            TsFormat::Gorilla => "gorilla",
            TsFormat::Yaml => "yaml",
            TsFormat::GzipJson => "gzip+json",
            TsFormat::GzipCbor => "gzip+cbor",
            TsFormat::GzipGorilla => "gzip+gorilla",
            TsFormat::Custom(s) => s.as_str(),
        }
    }
}

/// How a derived series relates to a target series in the same container.
#[derive(Clone, Debug, PartialEq, Eq)]
pub enum TsDepKind {
    Derived,
    Component,
    Aggregate,
    AsofJoinLeft,
    AsofJoinRight,
    Custom(String),
}

#[derive(Clone, Debug, PartialEq, Eq)]
pub struct TsDep {
    pub series_id: u64,
    pub kind: TsDepKind,
    pub note: Option<String>,
}

impl TsDep {
    pub fn new(series_id: u64, kind: TsDepKind) -> (d: Self)
        ensures
            d.series_id == series_id,
            d.kind == kind,
            d.note is None,
    {
        TsDep { series_id, kind, note: None }
    }

    pub fn with_note(self, note: impl TsIntoString) -> (d: Self)
        ensures
            d.series_id == self.series_id,
            d.kind == self.kind,
            d.note matches Some(n) && n@ == note.text_view(),
    {
        let mut d = self;
        d.note = Some(note.into_ts_string());
        d
    }
}

/// Identity + schema + relationship block for a series.
#[derive(Clone, Debug, PartialEq)]
pub struct TsSeriesMetadata {
    pub id: u64,
    pub name: String,
    pub schema: TsSchema,
    pub format: Option<TsFormat>,
    pub tags: TsTags,
    pub attributes: TsAttrs,
    pub dependencies: Vec<TsDep>,
}

impl TsSeriesMetadata {
    pub fn new(id: u64, name: impl TsIntoString) -> (m: Self)
        ensures
            m.id == id,
            m.name@ == name.text_view(),
            m.schema == TsSchema::Anonymous,
            m.format is None,
            m.tags.spec_map() == Map::<Seq<char>, Seq<char>>::empty(),
            m.attributes.spec_map() == Map::<Seq<char>, Seq<char>>::empty(),
            m.dependencies@.len() == 0,
    {
        TsSeriesMetadata {
            id,
            name: name.into_ts_string(),
            schema: TsSchema::Anonymous,
            format: None,
            tags: TsTags::new(),
            attributes: TsAttrs::new(),
            dependencies: Vec::new(),
        }
    }

    pub fn with_schema(self, schema: TsSchema) -> (m: Self)
        ensures
            m.schema == schema,
            m.id == self.id,
            m.name == self.name,
            m.format == self.format,
            m.tags == self.tags,
            m.attributes == self.attributes,
            m.dependencies == self.dependencies,
    {
        let mut m = self;
        m.schema = schema;
        m
    }

    pub fn with_format(self, format: TsFormat) -> (m: Self)
        ensures
            m.format == Some(format),
            m.id == self.id,
            m.name == self.name,
            m.schema == self.schema,
            m.tags == self.tags,
            m.attributes == self.attributes,
            m.dependencies == self.dependencies,
    {
        let mut m = self;
        m.format = Some(format);
        m
    }

    /// Add (or overwrite) the tag `key=value`.
    pub fn with_tag(self, key: impl TsIntoString, value: impl TsIntoString) -> (m: Self)
        ensures
            m.tags.spec_map() == self.tags.spec_map().insert(key.text_view(), value.text_view()),
            m.id == self.id,
            m.name == self.name,
            m.schema == self.schema,
            m.format == self.format,
            m.attributes == self.attributes,
            m.dependencies == self.dependencies,
    {
        let mut m = self;
        m.tags.insert(key.into_ts_string(), value.into_ts_string());
        m
    }

    pub fn with_dependency(self, dep: TsDep) -> (m: Self)
        ensures
            m.dependencies@ == self.dependencies@.push(dep),
            m.id == self.id,
            m.name == self.name,
            m.schema == self.schema,
            m.format == self.format,
            m.tags == self.tags,
            m.attributes == self.attributes,
    {
        let mut m = self;
        m.dependencies.push(dep);
        m
    }

    /// True if every `key=value` in `tags` is also a tag of this series.
    pub fn has_tags(&self, tags: &TsTags) -> (b: bool)
        ensures
            b == (forall|k: Seq<char>|
                #[trigger] tags.spec_map().contains_key(k) ==> self.tags.spec_map().contains_key(k)
                    && self.tags.spec_map()[k] == tags.spec_map()[k]),
    {
        let entries = tags.entries();
        proof {
            use_type_invariant(tags);
        }
        let ghost ev = tags.entries_view();
        for i in 0..entries.len()
            invariant
                entries@.map_values(|e: (String, String)| (e.0@, e.1@)) == ev,
                ev == tags.entries_view(),
                keys_increasing(ev),
                forall|j: int|
                    0 <= j < i ==> self.tags.spec_map().contains_key(#[trigger] ev[j].0)
                        && self.tags.spec_map()[ev[j].0] == ev[j].1,
        {
            let k = entries[i].0.as_str();
            let v = entries[i].1.as_str();
            assert(ev[i as int] == (k@, v@));
            let ok = match self.tags.get(k) {
                Some(w) => {
                    let w: &str = w.as_str();
                    proof {
                        crate::text::lemma_key_lt_trichotomy(v@, w@);
                    }
                    !crate::text::str_key_lt(v, w) && !crate::text::str_key_lt(w, v)
                },
                None => false,
            };
            proof {
                lemma_entries_map_at(ev, i as int);
                assert(ok == (self.tags.spec_map().contains_key(k@) && self.tags.spec_map()[k@]
                    == v@));
            }
            if !ok {
                assert(tags.spec_map().contains_key(k@));
                return false;
            }
        }
        proof {
            assert forall|k: Seq<char>| #[trigger]
                tags.spec_map().contains_key(k) implies self.tags.spec_map().contains_key(k)
                && self.tags.spec_map()[k] == tags.spec_map()[k] by {
                let j = key_index(ev, k);
                lemma_entries_map_at(ev, j);
            }
        }
        true
    }
}

impl Default for TsSeriesMetadata {
    fn default() -> (m: Self)
        ensures
            m.id == 0,
            m.name@ == Seq::<char>::empty(),
            m.schema == TsSchema::Anonymous,
            m.format is None,
            m.tags.spec_map() == Map::<Seq<char>, Seq<char>>::empty(),
            m.attributes.spec_map() == Map::<Seq<char>, Seq<char>>::empty(),
            m.dependencies@.len() == 0,
    {
        TsSeriesMetadata::new(0, String::new())
    }
}

impl TsSchema {
    /// A field-by-field copy.
    pub fn duplicate(&self) -> (s: Self)
        ensures
            s == *self,
    {
        match self {
            TsSchema::Anonymous => TsSchema::Anonymous,
            TsSchema::Numeric { unit, kind } => TsSchema::Numeric {
                unit: match unit {
                    Some(u) => Some(u.clone()),
                    None => None,
                },
                kind: *kind,
            },
            TsSchema::Schemaless => TsSchema::Schemaless,
            TsSchema::Custom { schema_type } => TsSchema::Custom { schema_type: schema_type.clone() },
        }
    }
}

impl TsFormat {
    /// A field-by-field copy.
    pub fn duplicate(&self) -> (f: Self)
        ensures
            f == *self,
    {
        match self {
            TsFormat::Json => TsFormat::Json,
            TsFormat::Cbor => TsFormat::Cbor,
            TsFormat::Gorilla => TsFormat::Gorilla,
            TsFormat::Yaml => TsFormat::Yaml,
            TsFormat::GzipJson => TsFormat::GzipJson,
            TsFormat::GzipCbor => TsFormat::GzipCbor,
            TsFormat::GzipGorilla => TsFormat::GzipGorilla,
            TsFormat::Custom(c) => TsFormat::Custom(c.clone()),
        }
    }
}

impl TsDep {
    /// A field-by-field copy.
    pub fn duplicate(&self) -> (d: Self)
        ensures
            d == *self,
    {
        let kind = match &self.kind {
            TsDepKind::Derived => TsDepKind::Derived,
            TsDepKind::Component => TsDepKind::Component,
            TsDepKind::Aggregate => TsDepKind::Aggregate,
            TsDepKind::AsofJoinLeft => TsDepKind::AsofJoinLeft,
            TsDepKind::AsofJoinRight => TsDepKind::AsofJoinRight,
            TsDepKind::Custom(c) => TsDepKind::Custom(c.clone()),
        };
        let note = match &self.note {
            Some(n) => Some(n.clone()),
            None => None,
        };
        TsDep { series_id: self.series_id, kind, note }
    }
}

/// `b` holds the same metadata as `a`: identity, schema, format,
/// dependencies, and tags and attributes with the same entries.
pub open spec fn meta_same(a: TsSeriesMetadata, b: TsSeriesMetadata) -> bool {
    &&& b.id == a.id
    &&& b.name@ == a.name@
    &&& b.schema == a.schema
    &&& b.format == a.format
    &&& b.tags.entries_view() == a.tags.entries_view()
    &&& b.attributes.spec_map() == a.attributes.spec_map()
    &&& b.dependencies@ == a.dependencies@
}

impl TsSeriesMetadata {
    /// A copy of the whole block; see [`meta_same`].
    pub fn duplicate(&self) -> (m: Self)
        ensures
            meta_same(*self, m),
    {
        let mut deps: Vec<TsDep> = Vec::new();
        for i in 0..self.dependencies.len()
            invariant
                deps@ == self.dependencies@.take(i as int),
        {
            deps.push(self.dependencies[i].duplicate());
            assert(deps@ =~= self.dependencies@.take(i + 1));
        }
        assert(self.dependencies@.take(self.dependencies@.len() as int) =~= self.dependencies@);
        TsSeriesMetadata {
            id: self.id,
            name: self.name.clone(),
            schema: self.schema.duplicate(),
            format: match &self.format {
                Some(f) => Some(f.duplicate()),
                None => None,
            },
            tags: self.tags.clone(),
            attributes: self.attributes.clone(),
            dependencies: deps,
        }
    }
}

} // verus!
