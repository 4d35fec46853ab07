//! A map keyed by name that keeps its entries in name order.

use crate::text::{self, Placement};
use vstd::prelude::*;

verus! {

/// Whether entries stand in strictly increasing name order.
pub open spec fn in_name_order<V>(entries: Seq<(Seq<char>, V)>) -> bool {
    forall|i: int, j: int| 0 <= i < j < entries.len() ==> text::name_lt(#[trigger] entries[i].0, #[trigger] entries[j].0)
}

/// Whether some entry carries the name.
pub open spec fn has_name<V>(entries: Seq<(Seq<char>, V)>, name: Seq<char>) -> bool {
    exists|i: int| 0 <= i < entries.len() && #[trigger] entries[i].0 == name
}

/// Where a name stands among the entries.
pub open spec fn position_of<V>(entries: Seq<(Seq<char>, V)>, name: Seq<char>) -> int {
    choose|i: int| 0 <= i < entries.len() && #[trigger] entries[i].0 == name
}

/// The map that a list of entries stands for.
pub open spec fn entries_map<V>(entries: Seq<(Seq<char>, V)>) -> Map<Seq<char>, V> {
    Map::new(
        |name: Seq<char>| has_name(entries, name),
        |name: Seq<char>| entries[position_of(entries, name)].1,
    )
}

/// In name order a name stands in one place only, and the map sends it there.
pub proof fn lemma_entry<V>(entries: Seq<(Seq<char>, V)>, i: int)
    requires
        in_name_order(entries),
        0 <= i < entries.len(),
    ensures
        position_of(entries, entries[i].0) == i,
        entries_map(entries).dom().contains(entries[i].0),
        entries_map(entries)[entries[i].0] == entries[i].1,
{
    let name = entries[i].0;
    let j = position_of(entries, name);
    assert(has_name(entries, name));
    if j < i {
        text::lemma_name_lt_asymmetric(entries[j].0, entries[i].0);
    } else if i < j {
        text::lemma_name_lt_asymmetric(entries[i].0, entries[j].0);
    }
}

/// Two lists in name order that stand for one map are one list.
pub proof fn lemma_one_order<V>(a: Seq<(Seq<char>, V)>, b: Seq<(Seq<char>, V)>)
    requires
        in_name_order(a),
        in_name_order(b),
        entries_map(a) == entries_map(b),
    ensures
        a == b,
    decreases a.len(),
{
    if a.len() == 0 {
        if b.len() > 0 {
            lemma_entry(b, 0);
            assert(entries_map(a).dom().contains(b[0].0));
        }
        assert(a =~= b);
    } else {
        let last = a.len() - 1;
        lemma_entry(a, last);
        let name = a[last].0;
        assert(has_name(b, name));
        let k = position_of(b, name);
        lemma_entry(b, k);
        let top = b.len() - 1;
        lemma_entry(b, top);
        let other = b[top].0;
        assert(has_name(a, other));
        let j = position_of(a, other);
        lemma_entry(a, j);
        if j < last {
            assert(text::name_lt(a[j].0, a[last].0));
            if k < top {
                assert(text::name_lt(b[k].0, b[top].0));
                text::lemma_name_lt_asymmetric(other, name);
            }
        }
        assert(k == top && j == last);
        lemma_removed(a, last);
        lemma_removed(b, top);
        assert(a.remove(last) =~= a.drop_last());
        assert(b.remove(top) =~= b.drop_last());
        lemma_one_order(a.drop_last(), b.drop_last());
        assert(a =~= a.drop_last().push(a[last]));
        assert(b =~= b.drop_last().push(b[top]));
    }
}

/// Whether a map has finitely many entries, so that they can be put in name order.
pub open spec fn has_order<V>(m: Map<Seq<char>, V>) -> bool {
    exists|entries: Seq<(Seq<char>, V)>| in_name_order(entries) && #[trigger] entries_map(entries) == m
}

/// The entries of a map, in name order.
pub open spec fn ordered<V>(m: Map<Seq<char>, V>) -> Seq<(Seq<char>, V)> {
    choose|entries: Seq<(Seq<char>, V)>| in_name_order(entries) && entries_map(entries) == m
}

/// The entries of a map in name order are the list in name order that stands for it.
pub proof fn lemma_ordered<V>(entries: Seq<(Seq<char>, V)>)
    requires
        in_name_order(entries),
    ensures
        ordered(entries_map(entries)) == entries,
{
    lemma_one_order(ordered(entries_map(entries)), entries);
}

/// Adding an entry behind all others adds it to the map.
pub proof fn lemma_pushed<V>(entries: Seq<(Seq<char>, V)>, name: Seq<char>, value: V)
    requires
        in_name_order(entries.push((name, value))),
    ensures
        entries_map(entries.push((name, value))) == entries_map(entries).insert(name, value),
{
    let all = entries.push((name, value));
    assert(all[entries.len() as int].0 == name);
    assert(in_name_order(entries)) by {
        assert forall|i: int, j: int| 0 <= i < j < entries.len() implies text::name_lt(
            #[trigger] entries[i].0,
            #[trigger] entries[j].0,
        ) by {
            assert(text::name_lt(all[i].0, all[j].0));
        }
    }
    assert forall|k: int| 0 <= k < entries.len() implies text::name_lt(#[trigger] entries[k].0, name) by {
        assert(text::name_lt(all[k].0, all[entries.len() as int].0));
    }
    lemma_inserted(entries, entries.len() as int, name, value);
    assert(entries.insert(entries.len() as int, (name, value)) =~= all);
}

/// Whether names are listed in strictly increasing order.
pub open spec fn sorted(list: Seq<Seq<char>>) -> bool {
    forall|i: int, j: int| 0 <= i < j < list.len() ==> text::name_lt(#[trigger] list[i], #[trigger] list[j])
}

/// Whether `list` lists exactly the names that have the property, in name order.
pub open spec fn lists(list: Seq<Seq<char>>, property: spec_fn(Seq<char>) -> bool) -> bool {
    &&& sorted(list)
    &&& forall|n: Seq<char>| #[trigger] list.contains(n) <==> property(n)
}

/// The names that have the property, in name order.
pub open spec fn listing(property: spec_fn(Seq<char>) -> bool) -> Seq<Seq<char>> {
    choose|list: Seq<Seq<char>>| lists(list, property)
}

/// Puts a name into a list in name order, unless it is there already.
pub proof fn lemma_sorted_insert(list: Seq<Seq<char>>, name: Seq<char>) -> (grown: Seq<Seq<char>>)
    requires
        sorted(list),
    ensures
        sorted(grown),
        forall|n: Seq<char>| #[trigger] grown.contains(n) <==> list.contains(n) || n == name,
    decreases list.len(),
{
    if list.contains(name) {
        list
    } else if list.len() == 0 {
        let grown = seq![name];
        assert(grown[0] == name);
        grown
    } else {
        let top = list.last();
        let front = list.drop_last();
        assert(list[list.len() - 1] == top);
        text::lemma_name_lt_total(name, top);
        if text::name_lt(top, name) {
            let grown = list.push(name);
            assert forall|i: int, j: int| 0 <= i < j < grown.len() implies text::name_lt(
                #[trigger] grown[i],
                #[trigger] grown[j],
            ) by {
                if j < list.len() {
                    assert(text::name_lt(list[i], list[j]));
                } else if i < list.len() - 1 {
                    assert(text::name_lt(list[i], list[list.len() - 1]));
                    text::lemma_name_lt_transitive(list[i], top, name);
                }
            }
            assert forall|n: Seq<char>| #[trigger] grown.contains(n) <==> list.contains(n) || n == name by {
                if list.contains(n) {
                    let k = choose|k: int| 0 <= k < list.len() && list[k] == n;
                    assert(grown[k] == n);
                }
                assert(grown[list.len() as int] == name);
            }
            grown
        } else {
            assert(sorted(front));
            let lower = lemma_sorted_insert(front, name);
            let grown = lower.push(top);
            assert forall|i: int, j: int| 0 <= i < j < grown.len() implies text::name_lt(
                #[trigger] grown[i],
                #[trigger] grown[j],
            ) by {
                if j < lower.len() {
                    assert(text::name_lt(lower[i], lower[j]));
                } else {
                    assert(lower.contains(lower[i]));
                    if lower[i] != name {
                        assert(front.contains(lower[i]));
                        let k = choose|k: int| 0 <= k < front.len() && front[k] == lower[i];
                        assert(text::name_lt(list[k], list[list.len() - 1]));
                    }
                }
            }
            assert forall|n: Seq<char>| #[trigger] grown.contains(n) <==> list.contains(n) || n == name by {
                if grown.contains(n) {
                    let k = choose|k: int| 0 <= k < grown.len() && grown[k] == n;
                    if k < lower.len() {
                        assert(lower.contains(n));
                        if n != name {
                            let m = choose|m: int| 0 <= m < front.len() && front[m] == n;
                            assert(list[m] == n);
                        }
                    }
                }
                if list.contains(n) {
                    let k = choose|k: int| 0 <= k < list.len() && list[k] == n;
                    if k < front.len() {
                        assert(front[k] == n);
                        assert(lower.contains(n));
                        let m = choose|m: int| 0 <= m < lower.len() && lower[m] == n;
                        assert(grown[m] == n);
                    } else {
                        assert(grown[lower.len() as int] == n);
                    }
                }
                if n == name {
                    assert(lower.contains(name));
                    let m = choose|m: int| 0 <= m < lower.len() && lower[m] == name;
                    assert(grown[m] == name);
                }
            }
            grown
        }
    }
}

/// A property is listed in one way only.
pub proof fn lemma_listing_unique(list: Seq<Seq<char>>, property: spec_fn(Seq<char>) -> bool)
    requires
        lists(list, property),
    ensures
        listing(property) == list,
{
    let other = listing(property);
    assert(lists(other, property));
    let a = list.map_values(|n: Seq<char>| (n, ()));
    let b = other.map_values(|n: Seq<char>| (n, ()));
    assert(in_name_order(a)) by {
        assert forall|i: int, j: int| 0 <= i < j < a.len() implies text::name_lt(
            #[trigger] a[i].0,
            #[trigger] a[j].0,
        ) by {
            assert(text::name_lt(list[i], list[j]));
        }
    }
    assert(in_name_order(b)) by {
        assert forall|i: int, j: int| 0 <= i < j < b.len() implies text::name_lt(
            #[trigger] b[i].0,
            #[trigger] b[j].0,
        ) by {
            assert(text::name_lt(other[i], other[j]));
        }
    }
    assert forall|n: Seq<char>| #[trigger] has_name(a, n) <==> has_name(b, n) by {
        if has_name(a, n) {
            let i = position_of(a, n);
            assert(list[i] == n);
            assert(list.contains(n));
            assert(other.contains(n));
            let j = choose|j: int| 0 <= j < other.len() && other[j] == n;
            assert(b[j].0 == n);
        }
        if has_name(b, n) {
            let i = position_of(b, n);
            assert(other[i] == n);
            assert(other.contains(n));
            assert(list.contains(n));
            let j = choose|j: int| 0 <= j < list.len() && list[j] == n;
            assert(a[j].0 == n);
        }
    }
    assert(entries_map(a) =~= entries_map(b));
    lemma_one_order(a, b);
    assert(list =~= other) by {
        assert(list.len() == other.len());
        assert forall|i: int| 0 <= i < list.len() implies list[i] == other[i] by {
            assert(a[i].0 == b[i].0);
        }
    }
}

/// A map from names to values, in name order.
#[derive(Debug, Clone, PartialEq, Eq)]
pub struct NameMap<V> {
    slots: Vec<(String, V)>,
}

impl<V> NameMap<V> {
    /// The entries, in the order in which they are kept.
    pub closed spec fn entries(self) -> Seq<(Seq<char>, V)> {
        self.slots@.map_values(|s: (String, V)| (s.0@, s.1))
    }

    /// The entries stand in strictly increasing name order.
    pub open spec fn wf(self) -> bool {
        in_name_order(self.entries())
    }
}

impl<V> View for NameMap<V> {
    type V = Map<Seq<char>, V>;

    open spec fn view(&self) -> Map<Seq<char>, V> {
        entries_map(self.entries())
    }
}

impl<V> NameMap<V> {
    /// The empty map.
    #[must_use]
    pub fn new() -> (r: Self)
        ensures
            r.wf(),
            r.entries() == Seq::<(Seq<char>, V)>::empty(),
            r@ == Map::<Seq<char>, V>::empty(),
    {
        let r = NameMap { slots: Vec::new() };
        proof {
            assert(r.entries() =~= Seq::<(Seq<char>, V)>::empty());
            assert(r@ =~= Map::<Seq<char>, V>::empty());
        }
        r
    }

    /// The number of entries.
    #[must_use]
    pub fn len(&self) -> (r: usize)
        ensures
            r == self.entries().len(),
    {
        self.slots.len()
    }

    /// Whether there are no entries.
    #[must_use]
    pub fn is_empty(&self) -> (r: bool)
        ensures
            r == (self.entries().len() == 0),
    {
        self.slots.len() == 0
    }

    /// The name of entry `i`.
    #[must_use]
    pub fn name_at(&self, i: usize) -> (r: &str)
        requires
            i < self.entries().len(),
        ensures
            r@ == self.entries()[i as int].0,
    {
        self.slots[i].0.as_str()
    }

    /// The value of entry `i`.
    #[must_use]
    pub fn value_at(&self, i: usize) -> (r: &V)
        requires
            i < self.entries().len(),
        ensures
            *r == self.entries()[i as int].1,
    {
        &self.slots[i].1
    }

    /// The place of `name`: where it stands, or where it would have to be inserted.
    fn search(&self, name: &str) -> (r: (bool, usize))
        requires
            self.wf(),
        ensures
            r.1 <= self.entries().len(),
            forall|i: int| 0 <= i < r.1 ==> text::name_lt(#[trigger] self.entries()[i].0, name@),
            r.0 ==> r.1 < self.entries().len() && self.entries()[r.1 as int].0 == name@,
            !r.0 ==> forall|i: int|
                r.1 <= i < self.entries().len() ==> text::name_lt(name@, #[trigger] self.entries()[i].0),
    {
        let ghost es = self.entries();
        let mut lo: usize = 0;
        let mut hi: usize = self.slots.len();
        while lo < hi
            invariant
                lo <= hi <= self.slots.len(),
                es == self.entries(),
                es.len() == self.slots.len(),
                in_name_order(es),
                forall|i: int| 0 <= i < lo ==> text::name_lt(#[trigger] es[i].0, name@),
                forall|i: int| hi <= i < es.len() ==> text::name_lt(name@, #[trigger] es[i].0),
            decreases hi - lo,
        {
            let mid: usize = lo + (hi - lo) / 2;
            assert(self.slots@[mid as int].0@ == es[mid as int].0);
            match text::place(self.slots[mid].0.as_str(), name) {
                Placement::Same => {
                    return (true, mid);
                },
                Placement::Before => {
                    proof {
                        assert forall|i: int| 0 <= i < mid + 1 implies text::name_lt(#[trigger] es[i].0, name@) by {
                            if i < mid {
                                assert(text::name_lt(es[i].0, es[mid as int].0));
                                text::lemma_name_lt_transitive(es[i].0, es[mid as int].0, name@);
                            }
                        }
                    }
                    lo = mid + 1;
                },
                Placement::After => {
                    proof {
                        assert forall|i: int| mid <= i < es.len() implies text::name_lt(name@, #[trigger] es[i].0) by {
                            if i > mid {
                                assert(text::name_lt(es[mid as int].0, es[i].0));
                                text::lemma_name_lt_transitive(name@, es[mid as int].0, es[i].0);
                            }
                        }
                    }
                    hi = mid;
                },
            }
        }
        (false, lo)
    }

    /// The place of `name` in name order, if it is present.
    #[must_use]
    pub fn index_of(&self, name: &str) -> (r: Option<usize>)
        requires
            self.wf(),
        ensures
            match r {
                Some(i) => i < self.entries().len() && self.entries()[i as int].0 == name@ && self@.dom().contains(
                    name@,
                ) && self@[name@] == self.entries()[i as int].1,
                None => !self@.dom().contains(name@),
            },
    {
        let (found, i) = self.search(name);
        if found {
            proof {
                lemma_entry(self.entries(), i as int);
            }
            Some(i)
        } else {
            proof {
                let es = self.entries();
                if has_name(es, name@) {
                    let k = position_of(es, name@);
                    if k < i {
                        text::lemma_name_lt_asymmetric(es[k].0, name@);
                    } else {
                        text::lemma_name_lt_asymmetric(name@, es[k].0);
                    }
                }
            }
            None
        }
    }

    /// Whether `name` is present.
    #[must_use]
    pub fn contains(&self, name: &str) -> (r: bool)
        requires
            self.wf(),
        ensures
            r == self@.dom().contains(name@),
    {
        self.index_of(name).is_some()
    }

    /// The value under `name`, if it is present.
    #[must_use]
    pub fn get(&self, name: &str) -> (r: Option<&V>)
        requires
            self.wf(),
        ensures
            match r {
                Some(v) => self@.dom().contains(name@) && *v == self@[name@],
                None => !self@.dom().contains(name@),
            },
    {
        match self.index_of(name) {
            Some(i) => Some(&self.slots[i].1),
            None => None,
        }
    }

    /// Puts `value` under `name`, replacing what was there.
    pub fn insert(&mut self, name: String, value: V)
        requires
            old(self).wf(),
        ensures
            final(self).wf(),
            final(self)@ == old(self)@.insert(name@, value),
            final(self).entries().len() == old(self).entries().len() + (if old(self)@.dom().contains(name@) {
                0int
            } else {
                1int
            }),
    {
        let ghost before = self.entries();
        let ghost key = name@;
        let (found, i) = self.search(name.as_str());
        if found {
            let ghost old_name = self.slots@[i as int].0;
            self.slots.remove(i);
            self.slots.insert(i, (name, value));
            proof {
                let after = self.entries();
                assert(after =~= before.update(i as int, (key, value)));
                lemma_entry(before, i as int);
                lemma_replaced(before, i as int, value);
            }
        } else {
            self.slots.insert(i, (name, value));
            proof {
                let after = self.entries();
                assert(after =~= before.insert(i as int, (key, value)));
                if before.len() > 0 && has_name(before, key) {
                    let k = position_of(before, key);
                    if k < i {
                        text::lemma_name_lt_asymmetric(before[k].0, key);
                    } else {
                        text::lemma_name_lt_asymmetric(key, before[k].0);
                    }
                }
                lemma_inserted(before, i as int, key, value);
            }
        }
    }

    /// Keeps the first `n` entries only.
    pub fn truncate(&mut self, n: usize)
        requires
            old(self).wf(),
            n <= old(self).entries().len(),
        ensures
            final(self).wf(),
            final(self).entries() == old(self).entries().take(n as int),
    {
        let ghost before = self.entries();
        self.slots.truncate(n);
        proof {
            assert(self.entries() =~= before.take(n as int));
            assert forall|i: int, j: int| 0 <= i < j < self.entries().len() implies text::name_lt(
                #[trigger] self.entries()[i].0,
                #[trigger] self.entries()[j].0,
            ) by {
                assert(text::name_lt(before[i].0, before[j].0));
            }
        }
    }

    /// Takes the entry under `name` away, if it is present.
    pub fn remove(&mut self, name: &str)
        requires
            old(self).wf(),
        ensures
            final(self).wf(),
            final(self)@ == old(self)@.remove(name@),
    {
        let ghost before = self.entries();
        match self.index_of(name) {
            Some(i) => {
                self.slots.remove(i);
                proof {
                    let after = self.entries();
                    assert(after =~= before.remove(i as int));
                    lemma_removed(before, i as int);
                }
            },
            None => {
                assert(self@ =~= old(self)@.remove(name@));
            },
        }
    }
}

proof fn lemma_replaced<V>(before: Seq<(Seq<char>, V)>, i: int, value: V)
    requires
        in_name_order(before),
        0 <= i < before.len(),
    ensures
        in_name_order(before.update(i, (before[i].0, value))),
        entries_map(before.update(i, (before[i].0, value))) == entries_map(before).insert(before[i].0, value),
{
    let name = before[i].0;
    let after = before.update(i, (name, value));
    assert(in_name_order(after));
    assert forall|n: Seq<char>| #[trigger] entries_map(after).dom().contains(n) <==> entries_map(before).insert(
        name,
        value,
    ).dom().contains(n) by {
        if has_name(before, n) {
            let k = position_of(before, n);
            assert(after[k].0 == n);
        }
        if has_name(after, n) {
            let k = position_of(after, n);
            assert(before[k].0 == n);
        }
        assert(after[i].0 == name);
    }
    assert forall|n: Seq<char>| #[trigger] entries_map(after).dom().contains(n) implies entries_map(after)[n]
        == entries_map(before).insert(name, value)[n] by {
        let k = position_of(after, n);
        assert(has_name(after, n));
        lemma_entry(after, k);
        assert(before[k].0 == n);
        lemma_entry(before, k);
        lemma_entry(after, i);
    }
    assert(entries_map(after) =~= entries_map(before).insert(name, value));
}

proof fn lemma_inserted<V>(before: Seq<(Seq<char>, V)>, i: int, name: Seq<char>, value: V)
    requires
        in_name_order(before),
        0 <= i <= before.len(),
        forall|k: int| 0 <= k < i ==> text::name_lt(#[trigger] before[k].0, name),
        forall|k: int| i <= k < before.len() ==> text::name_lt(name, #[trigger] before[k].0),
    ensures
        in_name_order(before.insert(i, (name, value))),
        entries_map(before.insert(i, (name, value))) == entries_map(before).insert(name, value),
{
    let after = before.insert(i, (name, value));
    assert forall|a: int, b: int| 0 <= a < b < after.len() implies text::name_lt(
        #[trigger] after[a].0,
        #[trigger] after[b].0,
    ) by {
        let pa = if a < i { a } else { a - 1 };
        let pb = if b < i { b } else { b - 1 };
        if a != i {
            assert(after[a] == before[pa]);
        }
        if b != i {
            assert(after[b] == before[pb]);
        }
    }
    assert forall|n: Seq<char>| #[trigger] entries_map(after).dom().contains(n) <==> entries_map(before).insert(
        name,
        value,
    ).dom().contains(n) by {
        if has_name(before, n) {
            let k = position_of(before, n);
            if k < i {
                assert(after[k].0 == n);
            } else {
                assert(after[k + 1].0 == n);
            }
        }
        assert(after[i].0 == name);
        if has_name(after, n) {
            let k = position_of(after, n);
            if k < i {
                assert(before[k].0 == n);
            } else if k > i {
                assert(before[k - 1].0 == n);
            }
        }
    }
    assert forall|n: Seq<char>| #[trigger] entries_map(after).dom().contains(n) implies entries_map(after)[n]
        == entries_map(before).insert(name, value)[n] by {
        let k = position_of(after, n);
        assert(has_name(after, n));
        lemma_entry(after, k);
        lemma_entry(after, i);
        if k < i {
            lemma_entry(before, k);
        } else if k > i {
            lemma_entry(before, k - 1);
        }
    }
    assert(entries_map(after) =~= entries_map(before).insert(name, value));
}

proof fn lemma_removed<V>(before: Seq<(Seq<char>, V)>, i: int)
    requires
        in_name_order(before),
        0 <= i < before.len(),
    ensures
        in_name_order(before.remove(i)),
        entries_map(before.remove(i)) == entries_map(before).remove(before[i].0),
{
    let name = before[i].0;
    let after = before.remove(i);
    assert forall|a: int, b: int| 0 <= a < b < after.len() implies text::name_lt(
        #[trigger] after[a].0,
        #[trigger] after[b].0,
    ) by {
        let pa = if a < i { a } else { a + 1 };
        let pb = if b < i { b } else { b + 1 };
        assert(after[a] == before[pa]);
        assert(after[b] == before[pb]);
    }
    assert forall|n: Seq<char>| #[trigger] entries_map(after).dom().contains(n) <==> entries_map(before).remove(
        name,
    ).dom().contains(n) by {
        if has_name(after, n) {
            let k = position_of(after, n);
            let pk = if k < i { k } else { k + 1 };
            assert(before[pk].0 == n);
            lemma_entry(before, pk);
            lemma_entry(before, i);
        }
        if has_name(before, n) && n != name {
            let k = position_of(before, n);
            if k < i {
                assert(after[k].0 == n);
            } else {
                assert(after[k - 1].0 == n);
            }
        }
    }
    assert forall|n: Seq<char>| #[trigger] entries_map(after).dom().contains(n) implies entries_map(after)[n]
        == entries_map(before).remove(name)[n] by {
        let k = position_of(after, n);
        assert(has_name(after, n));
        let pk = if k < i { k } else { k + 1 };
        lemma_entry(after, k);
        assert(after[k] == before[pk]);
        lemma_entry(before, pk);
    }
    assert(entries_map(after) =~= entries_map(before).remove(name));
}

} // verus!
