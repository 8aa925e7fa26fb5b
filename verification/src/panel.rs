//! [`TsPanel`]: a homogeneous, single-`T`, ts-aligned multi-series container
//! (an OHLCV bar set, an order book, a multi-symbol basket). Series live in
//! named slots; [`TsPanel::aligned`] walks every slot in lock-step by ts.

use vstd::prelude::*;

use crate::meta::{TsAttrs, TsDep, TsTags};
use crate::point::{points_cloned, TsPoint};
use crate::series::{delete_at_result, in_window, keep_by, ts_sorted, TsSeries};
use crate::text::{str_eq, TsIntoString};

verus! {

#[derive(Debug, PartialEq)]
pub struct TsPanelMetadata {
    pub name: String,
    pub tags: TsTags,
    pub attributes: TsAttrs,
    pub dependencies: Vec<TsDep>,
}

impl TsPanelMetadata {
    pub fn new(name: impl TsIntoString) -> (m: Self)
        ensures
            m.name@ == name.text_view(),
            m.tags.spec_map() == Map::<Seq<char>, Seq<char>>::empty(),
            m.attributes.spec_map() == Map::<Seq<char>, Seq<char>>::empty(),
            m.dependencies@.len() == 0,
    {
        TsPanelMetadata {
            name: name.into_ts_string(),
            tags: TsTags::new(),
            attributes: TsAttrs::new(),
            dependencies: Vec::new(),
        }
    }
}

impl Default for TsPanelMetadata {
    fn default() -> (m: Self)
        ensures
            m.name@ == Seq::<char>::empty(),
            m.tags.spec_map() == Map::<Seq<char>, Seq<char>>::empty(),
            m.attributes.spec_map() == Map::<Seq<char>, Seq<char>>::empty(),
            m.dependencies@.len() == 0,
    {
        TsPanelMetadata::new(String::new())
    }
}

impl Clone for TsPanelMetadata {
    fn clone(&self) -> (c: Self)
        ensures
            c.name == self.name,
            c.tags.spec_map() == self.tags.spec_map(),
            c.attributes.spec_map() == self.attributes.spec_map(),
            c.dependencies@.len() == self.dependencies@.len(),
    {
        TsPanelMetadata {
            name: self.name.clone(),
            tags: self.tags.clone(),
            attributes: self.attributes.clone(),
            dependencies: self.dependencies.clone(),
        }
    }
}

/// A named subset of a panel's slots (e.g. `price` = open/high/low/close).
#[derive(Clone, Debug, PartialEq, Eq)]
pub struct TsPanelGroup {
    pub name: String,
    pub series_names: Vec<String>,
}

/// A named slot of a panel.
pub type Slot<T> = (String, TsSeries<T>);

/// `i` is the first slot named `name`.
pub open spec fn first_slot<T>(s: Seq<Slot<T>>, name: Seq<char>, i: int) -> bool {
    &&& 0 <= i < s.len()
    &&& s[i].0@ == name
    &&& forall|j: int| 0 <= j < i ==> s[j].0@ != name
}

/// Some slot is named `name`.
pub open spec fn has_slot<T>(s: Seq<Slot<T>>, name: Seq<char>) -> bool {
    exists|i: int| 0 <= i < s.len() && s[i].0@ == name
}

/// `i` is the first group named `name`.
pub open spec fn first_group(g: Seq<TsPanelGroup>, name: Seq<char>, i: int) -> bool {
    &&& 0 <= i < g.len()
    &&& g[i].name@ == name
    &&& forall|j: int| 0 <= j < i ==> g[j].name@ != name
}

/// Some group is named `name`.
pub open spec fn has_group(g: Seq<TsPanelGroup>, name: Seq<char>) -> bool {
    exists|i: int| 0 <= i < g.len() && g[i].name@ == name
}

/// The member names of the first group named `name` (none when there is no
/// such group).
pub open spec fn group_members(g: Seq<TsPanelGroup>, name: Seq<char>) -> Seq<Seq<char>> {
    if has_group(g, name) {
        let i = choose|i: int| first_group(g, name, i);
        g[i].series_names@.map_values(|s: String| s@)
    } else {
        Seq::empty()
    }
}

/// Total number of points held by the slots.
pub open spec fn slot_points<T>(s: Seq<Slot<T>>) -> nat
    decreases s.len(),
{
    if s.len() == 0 {
        0
    } else {
        slot_points(s.drop_last()) + s.last().1@.len()
    }
}

proof fn lemma_slot_points_step<T>(s: Seq<Slot<T>>, i: int)
    requires
        0 <= i < s.len(),
    ensures
        slot_points(s.take(i + 1)) == slot_points(s.take(i)) + s[i].1@.len(),
{
    assert(s.take(i + 1).drop_last() =~= s.take(i));
}

proof fn lemma_slot_points_prefix<T>(s: Seq<Slot<T>>, i: int)
    requires
        0 <= i <= s.len(),
    ensures
        slot_points(s.take(i)) <= slot_points(s),
    decreases s.len() - i,
{
    if i < s.len() {
        lemma_slot_points_step(s, i);
        lemma_slot_points_prefix(s, i + 1);
    } else {
        assert(s.take(i) =~= s);
    }
}

proof fn lemma_first_unique(g: Seq<TsPanelGroup>, name: Seq<char>, i: int, k: int)
    requires
        first_group(g, name, i),
        first_group(g, name, k),
    ensures
        i == k,
{
}

/// `keep` answered `b` for the slot, given its name and series.
pub open spec fn kept_by<T, F: Fn(&str, &TsSeries<T>) -> bool>(keep: F, s: Slot<T>, b: bool) -> bool {
    exists|name: &str| #![trigger keep.ensures((name, &s.1), b)] name@ == s.0@ && keep.ensures((name, &s.1), b)
}

/// Same-type named series, plus named groups of slots.
#[derive(Debug)]
pub struct TsPanel<T> {
    meta: TsPanelMetadata,
    slots: Vec<Slot<T>>,
    groups: Vec<TsPanelGroup>,
}

impl<T: Clone> TsPanel<T> {
    /// The slots, in insertion order.
    pub closed spec fn slots(&self) -> Seq<Slot<T>> {
        self.slots@
    }

    /// The groups, in insertion order.
    pub closed spec fn groups(&self) -> Seq<TsPanelGroup> {
        self.groups@
    }

    pub closed spec fn spec_meta(&self) -> TsPanelMetadata {
        self.meta
    }

    pub fn new(meta: TsPanelMetadata) -> (p: Self)
        ensures
            p.spec_meta() == meta,
            p.slots() == Seq::<Slot<T>>::empty(),
            p.groups() == Seq::<TsPanelGroup>::empty(),
    {
        TsPanel { meta, slots: Vec::new(), groups: Vec::new() }
    }

    pub fn metadata(&self) -> (m: &TsPanelMetadata)
        ensures
            *m == self.spec_meta(),
    {
        &self.meta
    }

    /// Position of the first slot named `name`.
    fn find_slot(&self, name: &str) -> (r: Option<usize>)
        ensures
            match r {
                Some(i) => first_slot(self.slots(), name@, i as int),
                None => !has_slot(self.slots(), name@),
            },
    {
        let mut i: usize = 0;
        while i < self.slots.len()
            invariant
                i <= self.slots@.len(),
                forall|j: int| 0 <= j < i ==> self.slots@[j].0@ != name@,
            decreases self.slots@.len() - i,
        {
            if str_eq(self.slots[i].0.as_str(), name) {
                return Some(i);
            }
            i = i + 1;
        }
        None
    }

    /// Position of the first group named `name`.
    fn find_group(&self, name: &str) -> (r: Option<usize>)
        ensures
            match r {
                Some(i) => first_group(self.groups(), name@, i as int),
                None => !has_group(self.groups(), name@),
            },
    {
        let mut i: usize = 0;
        while i < self.groups.len()
            invariant
                i <= self.groups@.len(),
                forall|j: int| 0 <= j < i ==> self.groups@[j].name@ != name@,
            decreases self.groups@.len() - i,
        {
            if str_eq(self.groups[i].name.as_str(), name) {
                return Some(i);
            }
            i = i + 1;
        }
        None
    }

    /// Add or replace a slot. Insertion order is preserved and defines the
    /// column order of [`aligned`](Self::aligned) rows.
    pub fn add_series(&mut self, slot_name: impl TsIntoString, series: TsSeries<T>)
        ensures
            final(self).spec_meta() == old(self).spec_meta(),
            final(self).groups() == old(self).groups(),
            has_slot(old(self).slots(), slot_name.text_view()) ==> exists|i: int|
                first_slot(old(self).slots(), slot_name.text_view(), i) && final(self).slots()
                    == old(self).slots().update(i, (old(self).slots()[i].0, series)),
            !has_slot(old(self).slots(), slot_name.text_view()) ==> final(self).slots().len()
                == old(self).slots().len() + 1 && final(self).slots().drop_last() == old(self).slots() && final(self).slots().last().0@ == slot_name.text_view() && final(self).slots().last().1 == series,
    {
        let name = slot_name.into_ts_string();
        match self.find_slot(name.as_str()) {
            Some(i) => {
                let ghost before = self.slots@;
                self.slots[i].1 = series;
                assert(self.slots@ =~= before.update(i as int, (before[i as int].0, series)));
            },
            None => {
                let ghost before = self.slots@;
                self.slots.push((name, series));
                assert(self.slots@.drop_last() =~= before);
            },
        }
    }

    /// The series in the first slot named `slot_name`.
    pub fn series(&self, slot_name: &str) -> (r: Option<&TsSeries<T>>)
        ensures
            match r {
                Some(s) => exists|i: int|
                    first_slot(self.slots(), slot_name@, i) && self.slots()[i].1 == *s,
                None => !has_slot(self.slots(), slot_name@),
            },
    {
        match self.find_slot(slot_name) {
            Some(i) => Some(&self.slots[i].1),
            None => None,
        }
    }

    /// Mutable access to the series in the first slot named `slot_name`.
    pub fn series_mut(&mut self, slot_name: &str) -> (r: Option<&mut TsSeries<T>>)
        ensures
            final(self).spec_meta() == old(self).spec_meta(),
            final(self).groups() == old(self).groups(),
            match r {
                Some(s) => exists|i: int|
                    first_slot(old(self).slots(), slot_name@, i) && old(self).slots()[i].1 == *s
                        && final(self).slots() == old(self).slots().update(
                        i,
                        (old(self).slots()[i].0, *final(s)),
                    ),
                None => !has_slot(old(self).slots(), slot_name@) && final(self).slots() == old(self).slots(),
            },
    {
        match self.find_slot(slot_name) {
            Some(i) => Some(&mut self.slots[i].1),
            None => None,
        }
    }

    /// The slot names, in insertion order.
    pub fn slot_names(&self) -> (r: Vec<&str>)
        ensures
            r@.map_values(|s: &str| s@) == self.slots().map_values(|s: Slot<T>| s.0@),
    {
        let mut r: Vec<&str> = Vec::new();
        for i in 0..self.slots.len()
            invariant
                r@.map_values(|s: &str| s@) == self.slots@.take(i as int).map_values(
                    |s: Slot<T>| s.0@,
                ),
        {
            let ghost prev = r@;
            let name = self.slots[i].0.as_str();
            r.push(name);
            proof {
                assert(r@.map_values(|s: &str| s@) =~= prev.map_values(|s: &str| s@).push(name@));
                assert(self.slots@.take(i + 1).map_values(|s: Slot<T>| s.0@) =~= self.slots@.take(
                    i as int,
                ).map_values(|s: Slot<T>| s.0@).push(self.slots@[i as int].0@));
            }
        }
        assert(self.slots@.take(self.slots@.len() as int) =~= self.slots@);
        r
    }

    pub fn len(&self) -> (n: usize)
        ensures
            n == self.slots().len(),
    {
        self.slots.len()
    }

    pub fn is_empty(&self) -> (b: bool)
        ensures
            b == (self.slots().len() == 0),
    {
        self.slots.len() == 0
    }

    pub fn add_group(&mut self, group: TsPanelGroup)
        ensures
            final(self).groups() == old(self).groups().push(group),
            final(self).slots() == old(self).slots(),
            final(self).spec_meta() == old(self).spec_meta(),
    {
        self.groups.push(group);
    }

    /// The first group named `group_name`.
    pub fn group(&self, group_name: &str) -> (r: Option<&TsPanelGroup>)
        ensures
            match r {
                Some(g) => exists|i: int|
                    first_group(self.groups(), group_name@, i) && self.groups()[i] == *g,
                None => !has_group(self.groups(), group_name@),
            },
    {
        match self.find_group(group_name) {
            Some(i) => Some(&self.groups[i]),
            None => None,
        }
    }

    /// Is `name` among `members`?
    fn is_member(members: &Vec<String>, name: &str) -> (b: bool)
        ensures
            b == members@.map_values(|s: String| s@).contains(name@),
    {
        let ghost m = members@.map_values(|s: String| s@);
        let mut i: usize = 0;
        while i < members.len()
            invariant
                i <= members@.len(),
                m == members@.map_values(|s: String| s@),
                forall|j: int| 0 <= j < i ==> m[j] != name@,
            decreases members@.len() - i,
        {
            if str_eq(members[i].as_str(), name) {
                assert(m[i as int] == name@);
                return true;
            }
            i = i + 1;
        }
        false
    }

    /// The slots (name, series) whose name is a member of the first group
    /// named `group_name`, in slot order. An unknown group has no members.
    pub fn series_in_group(&self, group_name: &str) -> (r: Vec<(&str, &TsSeries<T>)>)
        ensures
            r@.map_values(|e: (&str, &TsSeries<T>)| (e.0@, *e.1)) == self.slots().filter(
                |s: Slot<T>| group_members(self.groups(), group_name@).contains(s.0@),
            ).map_values(|s: Slot<T>| (s.0@, s.1)),
    {
        let ghost members = group_members(self.groups(), group_name@);
        let ghost p = |s: Slot<T>| members.contains(s.0@);
        let empty: Vec<String> = Vec::new();
        let list: &Vec<String> = match self.find_group(group_name) {
            Some(gi) => {
                proof {
                    let k = choose|k: int| first_group(self.groups(), group_name@, k);
                    lemma_first_unique(self.groups(), group_name@, gi as int, k);
                }
                &self.groups[gi].series_names
            },
            None => {
                assert(members =~= empty@.map_values(|s: String| s@));
                &empty
            },
        };
        assert(members == list@.map_values(|s: String| s@));
        let mut r: Vec<(&str, &TsSeries<T>)> = Vec::new();
        for i in 0..self.slots.len()
            invariant
                members == list@.map_values(|s: String| s@),
                p == (|s: Slot<T>| members.contains(s.0@)),
                r@.map_values(|e: (&str, &TsSeries<T>)| (e.0@, *e.1)) == self.slots@.take(
                    i as int,
                ).filter(p).map_values(|s: Slot<T>| (s.0@, s.1)),
        {
            proof {
                reveal(Seq::filter);
                assert(self.slots@.take(i + 1).drop_last() =~= self.slots@.take(i as int));
            }
            let ghost prev = r@;
            let name = self.slots[i].0.as_str();
            if Self::is_member(list, name) {
                let entry = (name, &self.slots[i].1);
                r.push(entry);
                proof {
                    assert(r@.map_values(|e: (&str, &TsSeries<T>)| (e.0@, *e.1)) =~= prev.map_values(
                        |e: (&str, &TsSeries<T>)| (e.0@, *e.1),
                    ).push((name@, self.slots@[i as int].1)));
                    let t = self.slots@.take(i as int).filter(p);
                    assert(t.push(self.slots@[i as int]).map_values(|s: Slot<T>| (s.0@, s.1)) =~= t.map_values(
                        |s: Slot<T>| (s.0@, s.1),
                    ).push((name@, self.slots@[i as int].1)));
                }
            }
        }
        assert(self.slots@.take(self.slots@.len() as int) =~= self.slots@);
        r
    }

    /// Lock-step view over every slot by ts; see [`TsPanelAligned::next`].
    /// It holds a copy of each slot's points (values cloned).
    pub fn aligned(&self) -> (a: TsPanelAligned<T>)
        ensures
            a.wf(),
            a.columns().len() == self.slots().len(),
            forall|j: int|
                0 <= j < self.slots().len() ==> points_cloned(
                    self.slots()[j].1@,
                    #[trigger] a.columns()[j],
                ),
            a.cursors() == Seq::new(self.slots().len(), |i: int| 0int),
    {
        let mut columns: Vec<Vec<TsPoint<T>>> = Vec::new();
        for i in 0..self.slots.len()
            invariant
                columns@.len() == i,
                forall|j: int| 0 <= j < i ==> points_cloned(self.slots@[j].1@, (#[trigger] columns@[j])@),
                forall|j: int| 0 <= j < i ==> ts_sorted((#[trigger] columns@[j])@),
        {
            columns.push(self.slots[i].1.iter());
        }
        let ghost cv = columns@;
        let a = TsPanelAligned::from_columns(columns);
        assert forall|j: int| 0 <= j < self.slots().len() implies points_cloned(
            self.slots()[j].1@,
            #[trigger] a.columns()[j],
        ) by {
            assert(a.columns()[j] == cv[j]@);
        }
        a
    }

    // ---------- delete surface ----------

    /// Remove the first slot named `slot_name`; return its series.
    pub fn drop(&mut self, slot_name: &str) -> (r: Option<TsSeries<T>>)
        ensures
            final(self).spec_meta() == old(self).spec_meta(),
            final(self).groups() == old(self).groups(),
            match r {
                Some(s) => exists|i: int|
                    first_slot(old(self).slots(), slot_name@, i) && old(self).slots()[i].1 == s
                        && final(self).slots() == old(self).slots().remove(i),
                None => !has_slot(old(self).slots(), slot_name@) && final(self).slots() == old(self).slots(),
            },
    {
        match self.find_slot(slot_name) {
            Some(i) => {
                let (_, s) = self.slots.remove(i);
                Some(s)
            },
            None => None,
        }
    }

    /// Remove the first group named `group_name`; return it.
    pub fn remove_group(&mut self, group_name: &str) -> (r: Option<TsPanelGroup>)
        ensures
            final(self).spec_meta() == old(self).spec_meta(),
            final(self).slots() == old(self).slots(),
            match r {
                Some(g) => exists|i: int|
                    first_group(old(self).groups(), group_name@, i) && old(self).groups()[i] == g
                        && final(self).groups() == old(self).groups().remove(i),
                None => !has_group(old(self).groups(), group_name@) && final(self).groups() == old(self).groups(),
            },
    {
        match self.find_group(group_name) {
            Some(i) => Some(self.groups.remove(i)),
            None => None,
        }
    }

    /// Remove + return the first point stamped `ts` in the first slot named
    /// `slot_name`.
    pub fn delete_at(&mut self, slot_name: &str, ts: i64) -> (r: Option<TsPoint<T>>)
        ensures
            final(self).spec_meta() == old(self).spec_meta(),
            final(self).groups() == old(self).groups(),
            !has_slot(old(self).slots(), slot_name@) ==> r is None && final(self).slots() == old(self).slots(),
            has_slot(old(self).slots(), slot_name@) ==> exists|i: int, s: TsSeries<T>|
                first_slot(old(self).slots(), slot_name@, i) && final(self).slots() == old(self).slots().update(i, (old(self).slots()[i].0, s)) && s.spec_meta() == old(self).slots()[i].1.spec_meta() && delete_at_result(old(self).slots()[i].1@, s@, ts, r),
    {
        match self.find_slot(slot_name) {
            Some(i) => {
                let ghost before = self.slots@;
                let r = self.slots[i].1.delete_at(ts);
                assert(self.slots@ =~= before.update(
                    i as int,
                    (before[i as int].0, self.slots@[i as int].1),
                ));
                r
            },
            None => None,
        }
    }

    /// Remove the `[lo, hi]` window from the first slot named `slot_name`.
    /// Returns the count removed (0 for an unknown slot).
    pub fn delete_range(&mut self, slot_name: &str, lo: i64, hi: i64) -> (removed: usize)
        ensures
            final(self).spec_meta() == old(self).spec_meta(),
            final(self).groups() == old(self).groups(),
            !has_slot(old(self).slots(), slot_name@) ==> removed == 0 && final(self).slots()
                == old(self).slots(),
            has_slot(old(self).slots(), slot_name@) ==> exists|i: int, s: TsSeries<T>|
                first_slot(old(self).slots(), slot_name@, i) && final(self).slots() == old(self).slots().update(i, (old(self).slots()[i].0, s)) && s.spec_meta() == old(self).slots()[i].1.spec_meta() && s@ == old(self).slots()[i].1@.filter(
                    |p: TsPoint<T>| !in_window(p.ts, lo, hi),
                ) && removed == old(self).slots()[i].1@.len() - s@.len(),
    {
        match self.find_slot(slot_name) {
            Some(i) => {
                let ghost before = self.slots@;
                let r = self.slots[i].1.delete_range(lo, hi);
                assert(self.slots@ =~= before.update(
                    i as int,
                    (before[i as int].0, self.slots@[i as int].1),
                ));
                r
            },
            None => 0,
        }
    }

    /// Drop points before `cutoff` in every slot. Returns the total removed.
    pub fn truncate_before(&mut self, cutoff: i64) -> (removed: usize)
        requires
            slot_points(old(self).slots()) <= usize::MAX,
        ensures
            final(self).spec_meta() == old(self).spec_meta(),
            final(self).groups() == old(self).groups(),
            final(self).slots().len() == old(self).slots().len(),
            forall|j: int|
                0 <= j < old(self).slots().len() ==> (#[trigger] final(self).slots()[j]).0 == old(self).slots()[j].0 && final(self).slots()[j].1.spec_meta() == old(self).slots()[j].1.spec_meta() && final(self).slots()[j].1@ == old(self).slots()[j].1@.filter(|p: TsPoint<T>| p.ts >= cutoff),
            removed == slot_points(old(self).slots()) - slot_points(final(self).slots()),
    {
        let ghost s0 = self.slots@;
        let n = self.slots.len();
        let mut removed: usize = 0;
        let mut i: usize = 0;
        while i < n
            invariant
                i <= n,
                n == s0.len(),
                s0 == old(self).slots@,
                self.slots@.len() == n,
                self.meta == old(self).meta,
                self.groups == old(self).groups,
                slot_points(s0) <= usize::MAX,
                forall|j: int|
                    0 <= j < i ==> (#[trigger] self.slots@[j]).0 == s0[j].0
                        && self.slots@[j].1.spec_meta() == s0[j].1.spec_meta()
                        && self.slots@[j].1@ == s0[j].1@.filter(|p: TsPoint<T>| p.ts >= cutoff),
                forall|j: int| i <= j < n ==> #[trigger] self.slots@[j] == s0[j],
                removed == slot_points(s0.take(i as int)) - slot_points(self.slots@.take(i as int)),
            decreases n - i,
        {
            let ghost before = self.slots@;
            let k = self.slots[i].1.truncate_before(cutoff);
            proof {
                assert(self.slots@ == before.update(i as int, (s0[i as int].0, self.slots@[i as int].1)));
                assert(self.slots@.take(i as int) =~= before.take(i as int));
                lemma_slot_points_step(s0, i as int);
                lemma_slot_points_step(self.slots@, i as int);
                lemma_slot_points_prefix(s0, i + 1);
            }
            removed = removed + k;
            i = i + 1;
        }
        proof {
            assert(s0.take(n as int) =~= s0);
            assert(self.slots@.take(n as int) =~= self.slots@);
        }
        removed
    }

    /// Drop points after `cutoff` in every slot. Returns the total removed.
    pub fn truncate_after(&mut self, cutoff: i64) -> (removed: usize)
        requires
            slot_points(old(self).slots()) <= usize::MAX,
        ensures
            final(self).spec_meta() == old(self).spec_meta(),
            final(self).groups() == old(self).groups(),
            final(self).slots().len() == old(self).slots().len(),
            forall|j: int|
                0 <= j < old(self).slots().len() ==> (#[trigger] final(self).slots()[j]).0 == old(self).slots()[j].0 && final(self).slots()[j].1.spec_meta() == old(self).slots()[j].1.spec_meta() && final(self).slots()[j].1@ == old(self).slots()[j].1@.filter(|p: TsPoint<T>| p.ts <= cutoff),
            removed == slot_points(old(self).slots()) - slot_points(final(self).slots()),
    {
        let ghost s0 = self.slots@;
        let n = self.slots.len();
        let mut removed: usize = 0;
        let mut i: usize = 0;
        while i < n
            invariant
                i <= n,
                n == s0.len(),
                s0 == old(self).slots@,
                self.slots@.len() == n,
                self.meta == old(self).meta,
                self.groups == old(self).groups,
                slot_points(s0) <= usize::MAX,
                forall|j: int|
                    0 <= j < i ==> (#[trigger] self.slots@[j]).0 == s0[j].0
                        && self.slots@[j].1.spec_meta() == s0[j].1.spec_meta()
                        && self.slots@[j].1@ == s0[j].1@.filter(|p: TsPoint<T>| p.ts <= cutoff),
                forall|j: int| i <= j < n ==> #[trigger] self.slots@[j] == s0[j],
                removed == slot_points(s0.take(i as int)) - slot_points(self.slots@.take(i as int)),
            decreases n - i,
        {
            let ghost before = self.slots@;
            let k = self.slots[i].1.truncate_after(cutoff);
            proof {
                assert(self.slots@ == before.update(i as int, (s0[i as int].0, self.slots@[i as int].1)));
                assert(self.slots@.take(i as int) =~= before.take(i as int));
                lemma_slot_points_step(s0, i as int);
                lemma_slot_points_step(self.slots@, i as int);
                lemma_slot_points_prefix(s0, i + 1);
            }
            removed = removed + k;
            i = i + 1;
        }
        proof {
            assert(s0.take(n as int) =~= s0);
            assert(self.slots@.take(n as int) =~= self.slots@);
        }
        removed
    }

    /// Keep only the slots for which `keep(name, series)` answers `true`, in
    /// order. Returns how many slots were dropped.
    pub fn retain_slots<F: Fn(&str, &TsSeries<T>) -> bool>(&mut self, keep: F) -> (dropped: usize)
        requires
            forall|name: &str, s: &TsSeries<T>| keep.requires((name, s)),
        ensures
            final(self).spec_meta() == old(self).spec_meta(),
            final(self).groups() == old(self).groups(),
            exists|flags: Seq<bool>|
                flags.len() == old(self).slots().len() && (forall|i: int|
                    0 <= i < flags.len() ==> kept_by(keep, old(self).slots()[i], #[trigger] flags[i]))
                    && final(self).slots() == keep_by(old(self).slots(), flags),
            dropped == old(self).slots().len() - final(self).slots().len(),
    {
        let ghost s0 = self.slots@;
        let mut all: Vec<Slot<T>> = Vec::new();
        std::mem::swap(&mut all, &mut self.slots);
        let n = all.len();
        let mut flags: Vec<bool> = Vec::with_capacity(n);
        let mut k: usize = 0;
        while k < n
            invariant
                k <= n,
                n == s0.len(),
                all@ == s0,
                forall|name: &str, s: &TsSeries<T>| keep.requires((name, s)),
                flags@.len() == k,
                forall|j: int| 0 <= j < k ==> kept_by(keep, s0[j], #[trigger] flags@[j]),
            decreases n - k,
        {
            let name = all[k].0.as_str();
            let b = keep(name, &all[k].1);
            flags.push(b);
            assert(kept_by(keep, s0[k as int], flags@[k as int]));
            k = k + 1;
        }
        let mut i: usize = 0;
        proof {
            assert(s0.take(0) =~= Seq::<Slot<T>>::empty());
            assert(flags@.take(0) =~= Seq::<bool>::empty());
            assert(self.slots@ =~= keep_by(s0.take(0), flags@.take(0)));
        }
        for x in it: all.into_iter()
            invariant
                it.seq() == s0,
                i == it.index(),
                n == s0.len(),
                i <= n,
                flags@.len() == n,
                self.slots@ == keep_by(s0.take(i as int), flags@.take(i as int)),
                self.slots@.len() <= i,
                self.meta == old(self).meta,
                self.groups == old(self).groups,
        {
            assert(i < n);
            proof {
                assert(s0.take(i + 1).drop_last() =~= s0.take(i as int));
                assert(flags@.take(i + 1).drop_last() =~= flags@.take(i as int));
                assert(x == s0[i as int]);
            }
            if flags[i] {
                self.slots.push(x);
            }
            i = i + 1;
        }
        proof {
            assert(s0.take(n as int) =~= s0);
            assert(flags@.take(n as int) =~= flags@);
        }
        n - self.slots.len()
    }

    /// Drop every slot and every group; the panel metadata stays.
    pub fn clear(&mut self)
        ensures
            final(self).spec_meta() == old(self).spec_meta(),
            final(self).slots() == Seq::<Slot<T>>::empty(),
            final(self).groups() == Seq::<TsPanelGroup>::empty(),
    {
        self.slots.clear();
        self.groups.clear();
    }
}

impl<T: Clone> Default for TsPanel<T> {
    fn default() -> (p: Self)
        ensures
            p.slots() == Seq::<Slot<T>>::empty(),
            p.groups() == Seq::<TsPanelGroup>::empty(),
            p.spec_meta().name@ == Seq::<char>::empty(),
    {
        TsPanel::new(TsPanelMetadata::default())
    }
}

/// Multi-way merge over a panel's slots, yielding aligned rows in ts order.
/// Holds a copy of each slot's points and a cursor into each.
#[derive(Debug)]
pub struct TsPanelAligned<T> {
    columns: Vec<Vec<TsPoint<T>>>,
    pos: Vec<usize>,
}

/// The slot has a point left under its cursor.
pub open spec fn live<T>(cols: Seq<Seq<TsPoint<T>>>, cur: Seq<int>, i: int) -> bool {
    0 <= i < cols.len() && cur[i] < cols[i].len()
}

/// The point under slot `i`'s cursor.
pub open spec fn head<T>(cols: Seq<Seq<TsPoint<T>>>, cur: Seq<int>, i: int) -> TsPoint<T> {
    cols[i][cur[i]]
}

impl<T: Clone> TsPanelAligned<T> {
    /// Each slot's points, in slot order.
    pub closed spec fn columns(&self) -> Seq<Seq<TsPoint<T>>> {
        self.columns@.map_values(|c: Vec<TsPoint<T>>| c@)
    }

    /// How many points of each slot have been consumed.
    pub closed spec fn cursors(&self) -> Seq<int> {
        self.pos@.map_values(|p: usize| p as int)
    }

    /// A merge over the given point columns, every cursor at the start.
    pub(crate) fn from_columns(columns: Vec<Vec<TsPoint<T>>>) -> (a: Self)
        requires
            forall|j: int| 0 <= j < columns@.len() ==> ts_sorted(#[trigger] columns@[j]@),
        ensures
            a.wf(),
            a.columns() == columns@.map_values(|c: Vec<TsPoint<T>>| c@),
            a.cursors() == Seq::new(columns@.len(), |i: int| 0int),
    {
        let mut pos: Vec<usize> = Vec::new();
        for i in 0..columns.len()
            invariant
                pos@.len() == i,
                forall|j: int| 0 <= j < i ==> #[trigger] pos@[j] == 0,
        {
            pos.push(0);
        }
        let a = TsPanelAligned { columns, pos };
        assert(a.cursors() =~= Seq::new(a.columns@.len(), |i: int| 0int));
        assert(a.columns() =~= a.columns@.map_values(|c: Vec<TsPoint<T>>| c@));
        a
    }

    /// One cursor per slot, each within its column; columns are in ts order.
    pub closed spec fn wf(&self) -> bool {
        &&& self.columns@.len() == self.pos@.len()
        &&& forall|i: int|
            0 <= i < self.pos@.len() ==> #[trigger] self.pos@[i] <= self.columns@[i]@.len()
        &&& forall|i: int| 0 <= i < self.columns@.len() ==> ts_sorted(#[trigger] self.columns@[i]@)
    }

    /// The next aligned row: the smallest ts `t` among the points under the
    /// cursors, and for each slot a clone of its value at `t` (advancing that
    /// cursor) or `None`. `None` once every slot is consumed. Rows come out in
    /// non-decreasing ts: every point left is stamped at or after `t`.
    pub fn next(&mut self) -> (r: Option<(i64, Vec<Option<T>>)>)
        requires
            old(self).wf(),
        ensures
            final(self).wf(),
            final(self).columns() == old(self).columns(),
            match r {
                None => final(self).cursors() == old(self).cursors() && forall|i: int|
                    0 <= i < old(self).columns().len() ==> !live(
                        old(self).columns(),
                        old(self).cursors(),
                        i,
                    ),
                Some((t, row)) => {
                    let cols = old(self).columns();
                    let cur = old(self).cursors();
                    &&& exists|i: int| live(cols, cur, i) && head(cols, cur, i).ts == t
                    &&& forall|i: int| live(cols, cur, i) ==> t <= head(cols, cur, i).ts
                    &&& row@.len() == cols.len()
                    &&& final(self).cursors().len() == cur.len()
                    &&& forall|i: int|
                        0 <= i < cols.len() ==> if live(cols, cur, i) && head(cols, cur, i).ts == t {
                            #[trigger] row@[i] is Some && cloned(head(cols, cur, i).value, row@[i]->0)
                                && final(self).cursors()[i] == cur[i] + 1
                        } else {
                            #[trigger] row@[i] is None && final(self).cursors()[i] == cur[i]
                        }
                    &&& forall|i: int|
                        live(cols, final(self).cursors(), i) ==> t <= head(
                            cols,
                            final(self).cursors(),
                            i,
                        ).ts
                },
            },
    {
        let ghost cols = self.columns();
        let ghost cur = self.cursors();
        let n = self.columns.len();
        let mut min: Option<i64> = None;
        for i in 0..n
            invariant
                n == self.columns@.len(),
                self.wf(),
                cols == self.columns(),
                cur == self.cursors(),
                match min {
                    None => forall|j: int| 0 <= j < i ==> !live(cols, cur, j),
                    Some(m) => (exists|j: int| 0 <= j < i && live(cols, cur, j) && head(cols, cur, j).ts == m)
                        && forall|j: int| 0 <= j < i && live(cols, cur, j) ==> m <= head(cols, cur, j).ts,
                },
        {
            let p = self.pos[i];
            if p < self.columns[i].len() {
                let t = self.columns[i][p].ts;
                assert(live(cols, cur, i as int) && head(cols, cur, i as int).ts == t);
                match min {
                    None => {
                        min = Some(t);
                    },
                    Some(m) => {
                        if t < m {
                            min = Some(t);
                        }
                    },
                }
            } else {
                assert(!live(cols, cur, i as int));
            }
        }
        let t = match min {
            None => {
                return None;
            },
            Some(m) => m,
        };
        let mut row: Vec<Option<T>> = Vec::with_capacity(n);
        let mut i: usize = 0;
        while i < n
            invariant
                i <= n,
                n == self.columns@.len(),
                self.columns@.len() == self.pos@.len(),
                cols == self.columns(),
                cur.len() == n,
                forall|j: int| 0 <= j < self.pos@.len() ==> #[trigger] self.pos@[j] <= self.columns@[j]@.len(),
                forall|j: int| 0 <= j < self.columns@.len() ==> ts_sorted(#[trigger] self.columns@[j]@),
                row@.len() == i,
                forall|j: int| live(cols, cur, j) ==> t <= head(cols, cur, j).ts,
                forall|j: int| i <= j < n ==> #[trigger] self.pos@[j] == cur[j],
                forall|j: int|
                    0 <= j < i ==> if live(cols, cur, j) && head(cols, cur, j).ts == t {
                        #[trigger] row@[j] is Some && cloned(head(cols, cur, j).value, row@[j]->0)
                            && self.pos@[j] == cur[j] + 1
                    } else {
                        #[trigger] row@[j] is None && self.pos@[j] == cur[j]
                    },
            decreases n - i,
        {
            let p = self.pos[i];
            assert(p == cur[i as int]);
            if p < self.columns[i].len() && self.columns[i][p].ts == t {
                let v = self.columns[i][p].value.clone();
                row.push(Some(v));
                self.pos.set(i, p + 1);
            } else {
                row.push(None);
            }
            i = i + 1;
        }
        proof {
            assert(self.cursors().len() == cur.len());
            assert forall|j: int| live(cols, self.cursors(), j) implies t <= head(
                cols,
                self.cursors(),
                j,
            ).ts by {
                assert(0 <= j < n);
                assert(self.cursors()[j] == self.pos@[j] as int);
                assert(row@[j] == row@[j]);
                if live(cols, cur, j) && head(cols, cur, j).ts == t {
                    assert(self.pos@[j] == cur[j] + 1);
                    assert(cols[j] == self.columns@[j]@);
                    assert(ts_sorted(self.columns@[j]@));
                    assert(cols[j][cur[j]].ts <= cols[j][cur[j] + 1].ts);
                } else {
                    assert(self.pos@[j] == cur[j]);
                    assert(live(cols, cur, j));
                }
            }
        }
        Some((t, row))
    }
}

} // verus!
