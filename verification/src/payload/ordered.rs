//! A map with ordered keys, and its codec.

use super::container::{self, check_element_count};
use super::{encode_len, Codec, CodecError, Cursor, ErrorView, Parsed};
use crate::bytes;
use crate::payload;
use crate::text::{self, Placement};
use vstd::layout;
use vstd::prelude::*;

verus! {

/// A type whose values can be keys: they are ordered, and two that are not ordered
/// either way are the same.
pub trait Key: Codec {
    /// Whether a key comes before another.
    spec fn lt(a: Self::Model, b: Self::Model) -> bool;

    /// No two keys each come before the other.
    proof fn law_asymmetric(a: Self::Model, b: Self::Model)
        requires
            Self::lt(a, b),
        ensures
            !Self::lt(b, a),
    ;

    /// What comes before a key comes before all that it comes before.
    proof fn law_transitive(a: Self::Model, b: Self::Model, c: Self::Model)
        ensures
            Self::lt(a, b) && Self::lt(b, c) ==> Self::lt(a, c),
    ;

    /// Of two keys, one comes before the other, or they are the same.
    proof fn law_total(a: Self::Model, b: Self::Model)
        ensures
            Self::lt(a, b) || Self::lt(b, a) || a == b,
    ;

    /// Whether the key comes before another.
    fn precedes(&self, other: &Self) -> (r: bool)
        ensures
            r == Self::lt(self.model(), other.model()),
    ;
}

impl Key for u8 {
    open spec fn lt(a: u8, b: u8) -> bool {
        a < b
    }

    proof fn law_asymmetric(a: u8, b: u8) {
    }

    proof fn law_transitive(a: u8, b: u8, c: u8) {
    }

    proof fn law_total(a: u8, b: u8) {
    }

    fn precedes(&self, other: &Self) -> (r: bool) {
        *self < *other
    }
}

impl Key for u16 {
    open spec fn lt(a: u16, b: u16) -> bool {
        a < b
    }

    proof fn law_asymmetric(a: u16, b: u16) {
    }

    proof fn law_transitive(a: u16, b: u16, c: u16) {
    }

    proof fn law_total(a: u16, b: u16) {
    }

    fn precedes(&self, other: &Self) -> (r: bool) {
        *self < *other
    }
}

impl Key for u32 {
    open spec fn lt(a: u32, b: u32) -> bool {
        a < b
    }

    proof fn law_asymmetric(a: u32, b: u32) {
    }

    proof fn law_transitive(a: u32, b: u32, c: u32) {
    }

    proof fn law_total(a: u32, b: u32) {
    }

    fn precedes(&self, other: &Self) -> (r: bool) {
        *self < *other
    }
}

impl Key for u64 {
    open spec fn lt(a: u64, b: u64) -> bool {
        a < b
    }

    proof fn law_asymmetric(a: u64, b: u64) {
    }

    proof fn law_transitive(a: u64, b: u64, c: u64) {
    }

    proof fn law_total(a: u64, b: u64) {
    }

    fn precedes(&self, other: &Self) -> (r: bool) {
        *self < *other
    }
}

impl Key for u128 {
    open spec fn lt(a: u128, b: u128) -> bool {
        a < b
    }

    proof fn law_asymmetric(a: u128, b: u128) {
    }

    proof fn law_transitive(a: u128, b: u128, c: u128) {
    }

    proof fn law_total(a: u128, b: u128) {
    }

    fn precedes(&self, other: &Self) -> (r: bool) {
        *self < *other
    }
}

impl Key for usize {
    open spec fn lt(a: usize, b: usize) -> bool {
        a < b
    }

    proof fn law_asymmetric(a: usize, b: usize) {
    }

    proof fn law_transitive(a: usize, b: usize, c: usize) {
    }

    proof fn law_total(a: usize, b: usize) {
    }

    fn precedes(&self, other: &Self) -> (r: bool) {
        *self < *other
    }
}

impl Key for i8 {
    open spec fn lt(a: i8, b: i8) -> bool {
        a < b
    }

    proof fn law_asymmetric(a: i8, b: i8) {
    }

    proof fn law_transitive(a: i8, b: i8, c: i8) {
    }

    proof fn law_total(a: i8, b: i8) {
    }

    fn precedes(&self, other: &Self) -> (r: bool) {
        *self < *other
    }
}

impl Key for i16 {
    open spec fn lt(a: i16, b: i16) -> bool {
        a < b
    }

    proof fn law_asymmetric(a: i16, b: i16) {
    }

    proof fn law_transitive(a: i16, b: i16, c: i16) {
    }

    proof fn law_total(a: i16, b: i16) {
    }

    fn precedes(&self, other: &Self) -> (r: bool) {
        *self < *other
    }
}

impl Key for i32 {
    open spec fn lt(a: i32, b: i32) -> bool {
        a < b
    }

    proof fn law_asymmetric(a: i32, b: i32) {
    }

    proof fn law_transitive(a: i32, b: i32, c: i32) {
    }

    proof fn law_total(a: i32, b: i32) {
    }

    fn precedes(&self, other: &Self) -> (r: bool) {
        *self < *other
    }
}

impl Key for i64 {
    open spec fn lt(a: i64, b: i64) -> bool {
        a < b
    }

    proof fn law_asymmetric(a: i64, b: i64) {
    }

    proof fn law_transitive(a: i64, b: i64, c: i64) {
    }

    proof fn law_total(a: i64, b: i64) {
    }

    fn precedes(&self, other: &Self) -> (r: bool) {
        *self < *other
    }
}

impl Key for i128 {
    open spec fn lt(a: i128, b: i128) -> bool {
        a < b
    }

    proof fn law_asymmetric(a: i128, b: i128) {
    }

    proof fn law_transitive(a: i128, b: i128, c: i128) {
    }

    proof fn law_total(a: i128, b: i128) {
    }

    fn precedes(&self, other: &Self) -> (r: bool) {
        *self < *other
    }
}

impl Key for isize {
    open spec fn lt(a: isize, b: isize) -> bool {
        a < b
    }

    proof fn law_asymmetric(a: isize, b: isize) {
    }

    proof fn law_transitive(a: isize, b: isize, c: isize) {
    }

    proof fn law_total(a: isize, b: isize) {
    }

    fn precedes(&self, other: &Self) -> (r: bool) {
        *self < *other
    }
}

impl Key for bool {
    open spec fn lt(a: bool, b: bool) -> bool {
        !a && b
    }

    proof fn law_asymmetric(a: bool, b: bool) {
    }

    proof fn law_transitive(a: bool, b: bool, c: bool) {
    }

    proof fn law_total(a: bool, b: bool) {
    }

    fn precedes(&self, other: &Self) -> (r: bool) {
        !*self && *other
    }
}

impl Key for String {
    open spec fn lt(a: Seq<char>, b: Seq<char>) -> bool {
        text::name_lt(a, b)
    }

    proof fn law_asymmetric(a: Seq<char>, b: Seq<char>) {
        text::lemma_name_lt_asymmetric(a, b);
    }

    proof fn law_transitive(a: Seq<char>, b: Seq<char>, c: Seq<char>) {
        if text::name_lt(a, b) && text::name_lt(b, c) {
            text::lemma_name_lt_transitive(a, b, c);
        }
    }

    proof fn law_total(a: Seq<char>, b: Seq<char>) {
        text::lemma_name_lt_total(a, b);
    }

    fn precedes(&self, other: &Self) -> (r: bool) {
        match text::place(self.as_str(), other.as_str()) {
            Placement::Before => true,
            Placement::Same => false,
            Placement::After => {
                proof {
                    text::lemma_name_lt_asymmetric(other@, self@);
                }
                false
            },
        }
    }
}

/// Whether entries stand in strictly ascending key order.
pub open spec fn ascending<K: Key, V>(entries: Seq<(K::Model, V)>) -> bool {
    forall|i: int, j: int| 0 <= i < j < entries.len() ==> K::lt(#[trigger] entries[i].0, #[trigger] entries[j].0)
}

/// Whether some entry has the key.
pub open spec fn has_key<K: Key, V>(entries: Seq<(K::Model, V)>, key: K::Model) -> bool {
    exists|i: int| 0 <= i < entries.len() && #[trigger] entries[i].0 == key
}

/// Where a key stands among entries.
pub open spec fn place_of<K: Key, V>(entries: Seq<(K::Model, V)>, key: K::Model) -> int {
    choose|i: int| 0 <= i < entries.len() && #[trigger] entries[i].0 == key
}

/// The map that entries stand for.
pub open spec fn as_map<K: Key, V>(entries: Seq<(K::Model, V)>) -> Map<K::Model, V> {
    Map::new(
        |key: K::Model| has_key::<K, V>(entries, key),
        |key: K::Model| entries[place_of::<K, V>(entries, key)].1,
    )
}

/// In ascending order a key stands in one place only.
pub proof fn lemma_entry<K: Key, V>(entries: Seq<(K::Model, V)>, i: int)
    requires
        ascending::<K, V>(entries),
        0 <= i < entries.len(),
    ensures
        place_of::<K, V>(entries, entries[i].0) == i,
        as_map::<K, V>(entries).dom().contains(entries[i].0),
        as_map::<K, V>(entries)[entries[i].0] == entries[i].1,
{
    let key = entries[i].0;
    assert(has_key::<K, V>(entries, key));
    let j = place_of::<K, V>(entries, key);
    if j < i {
        K::law_asymmetric(entries[j].0, entries[i].0);
    } else if i < j {
        K::law_asymmetric(entries[i].0, entries[j].0);
    }
}

proof fn lemma_front<K: Key, V>(entries: Seq<(K::Model, V)>)
    requires
        ascending::<K, V>(entries),
        entries.len() > 0,
    ensures
        ascending::<K, V>(entries.drop_last()),
        as_map::<K, V>(entries.drop_last()) == as_map::<K, V>(entries).remove(entries.last().0),
{
    let front = entries.drop_last();
    let top = entries.len() - 1;
    assert forall|i: int, j: int| 0 <= i < j < front.len() implies K::lt(
        #[trigger] front[i].0,
        #[trigger] front[j].0,
    ) by {
        assert(K::lt(entries[i].0, entries[j].0));
    }
    let small = as_map::<K, V>(front);
    let large = as_map::<K, V>(entries).remove(entries.last().0);
    assert forall|key: K::Model| small.dom().contains(key) <==> large.dom().contains(key) by {
        if has_key::<K, V>(front, key) {
            let i = place_of::<K, V>(front, key);
            assert(entries[i].0 == key);
            assert(K::lt(entries[i].0, entries[top].0));
            if key == entries[top].0 {
                K::law_asymmetric(key, key);
            }
        }
        if has_key::<K, V>(entries, key) && key != entries.last().0 {
            let i = place_of::<K, V>(entries, key);
            assert(front[i].0 == key);
        }
    }
    assert forall|key: K::Model| small.dom().contains(key) implies small[key] == large[key] by {
        let i = place_of::<K, V>(front, key);
        assert(entries[i].0 == key);
        lemma_entry::<K, V>(entries, i);
    }
    assert(small =~= large);
}

/// Two lists in ascending order that stand for one map are one list: the order in which
/// a map was built does not show.
pub proof fn law_one_order<K: Key, V>(a: Seq<(K::Model, V)>, b: Seq<(K::Model, V)>)
    requires
        ascending::<K, V>(a),
        ascending::<K, V>(b),
        as_map::<K, V>(a) == as_map::<K, V>(b),
    ensures
        a == b,
    decreases a.len(),
{
    if a.len() == 0 {
        if b.len() > 0 {
            lemma_entry::<K, V>(b, 0);
            assert(as_map::<K, V>(a).dom().contains(b[0].0));
        }
        assert(a =~= b);
    } else {
        let last = a.len() - 1;
        lemma_entry::<K, V>(a, last);
        let key = a[last].0;
        assert(has_key::<K, V>(b, key));
        let k = place_of::<K, V>(b, key);
        lemma_entry::<K, V>(b, k);
        let top = b.len() - 1;
        lemma_entry::<K, V>(b, top);
        let other = b[top].0;
        assert(has_key::<K, V>(a, other));
        let j = place_of::<K, V>(a, other);
        lemma_entry::<K, V>(a, j);
        if j < last {
            assert(K::lt(a[j].0, a[last].0));
            if k < top {
                assert(K::lt(b[k].0, b[top].0));
                K::law_asymmetric(other, key);
            }
        }
        assert(k == top && j == last);
        lemma_front::<K, V>(a);
        lemma_front::<K, V>(b);
        law_one_order::<K, V>(a.drop_last(), b.drop_last());
        assert(a =~= a.drop_last().push(a[last]));
        assert(b =~= b.drop_last().push(b[top]));
    }
}

/// A map holds as many keys as there are entries.
pub proof fn lemma_map_len<K: Key, V>(entries: Seq<(K::Model, V)>)
    requires
        ascending::<K, V>(entries),
    ensures
        as_map::<K, V>(entries).dom().finite(),
        as_map::<K, V>(entries).dom().len() == entries.len(),
    decreases entries.len(),
{
    let m = as_map::<K, V>(entries);
    if entries.len() == 0 {
        assert(m.dom() =~= Set::<K::Model>::empty());
    } else {
        lemma_front::<K, V>(entries);
        lemma_map_len::<K, V>(entries.drop_last());
        lemma_entry::<K, V>(entries, entries.len() - 1);
        let key = entries.last().0;
        assert(m.dom() =~= m.remove(key).dom().insert(key));
    }
}

/// A map that keeps its entries in ascending key order.
#[derive(Debug, PartialEq, Eq)]
pub struct OrderedMap<K: Key, V> {
    slots: Vec<(K, V)>,
}

/// What slots hold.
pub open spec fn slot_entries<K: Key, V>(slots: Seq<(K, V)>) -> Seq<(K::Model, V)> {
    slots.map_values(|s: (K, V)| (s.0.model(), s.1))
}

impl<K: Key + Copy, V: Clone> Clone for OrderedMap<K, V> {
    fn clone(&self) -> (r: Self)
        ensures
            r.entries().len() == self.entries().len(),
            forall|i: int|
                0 <= i < r.entries().len() ==> (#[trigger] r.entries()[i]).0 == self.entries()[i].0 && cloned::<V>(
                    self.entries()[i].1,
                    r.entries()[i].1,
                ),
    {
        proof {
            use_type_invariant(self);
        }
        let ghost es = self.entries();
        let mut slots: Vec<(K, V)> = Vec::new();
        let mut i: usize = 0;
        while i < self.slots.len()
            invariant
                es == slot_entries::<K, V>(self.slots@),
                i <= self.slots.len(),
                slots.len() == i,
                forall|k: int|
                    0 <= k < i ==> (#[trigger] slots@[k]).0 == self.slots@[k].0 && cloned::<V>(
                        self.slots@[k].1,
                        slots@[k].1,
                    ),
            decreases self.slots.len() - i,
        {
            let key: K = self.slots[i].0;
            let value = self.slots[i].1.clone();
            slots.push((key, value));
            i = i + 1;
        }
        proof {
            let copy = slot_entries::<K, V>(slots@);
            assert forall|k: int| 0 <= k < copy.len() implies (#[trigger] copy[k]).0 == es[k].0 by {
                assert(slots@[k].0 == self.slots@[k].0);
            }
            assert forall|a: int, b: int| 0 <= a < b < copy.len() implies K::lt(
                (#[trigger] copy[a]).0,
                (#[trigger] copy[b]).0,
            ) by {
                assert(K::lt(es[a].0, es[b].0));
            }
        }
        let r = OrderedMap { slots };
        proof {
            assert forall|k: int| 0 <= k < r.entries().len() implies (#[trigger] r.entries()[k]).0 == self.entries()[k].0
                && cloned::<V>(self.entries()[k].1, r.entries()[k].1) by {
                assert(r.slots@[k].0 == self.slots@[k].0);
            }
        }
        r
    }
}

impl<K: Key, V> OrderedMap<K, V> {
    /// The entries, in ascending key order.
    pub closed spec fn entries(self) -> Seq<(K::Model, V)> {
        slot_entries::<K, V>(self.slots@)
    }

    #[verifier::type_invariant]
    spec fn ordered(self) -> bool {
        ascending::<K, V>(slot_entries::<K, V>(self.slots@))
    }

    /// The empty map.
    #[must_use]
    pub fn new() -> (r: Self)
        ensures
            r.entries() == Seq::<(K::Model, V)>::empty(),
            r@ == Map::<K::Model, V>::empty(),
    {
        let r = OrderedMap { slots: Vec::new() };
        proof {
            assert(r.entries() =~= Seq::<(K::Model, V)>::empty());
            assert(r@ =~= Map::<K::Model, V>::empty());
        }
        r
    }

    /// The number of entries.
    #[must_use]
    pub fn len(&self) -> (r: usize)
        ensures
            r == self.entries().len(),
            ascending::<K, V>(self.entries()),
    {
        proof {
            use_type_invariant(self);
        }
        self.slots.len()
    }

    /// Whether there are no entries.
    #[must_use]
    pub fn is_empty(&self) -> (r: bool)
        ensures
            r == (self.entries().len() == 0),
    {
        self.slots.len() == 0
    }

    /// The key of entry `i`.
    #[must_use]
    pub fn key_at(&self, i: usize) -> (r: &K)
        requires
            i < self.entries().len(),
        ensures
            r.model() == self.entries()[i as int].0,
    {
        &self.slots[i].0
    }

    /// The value of entry `i`.
    #[must_use]
    pub fn value_at(&self, i: usize) -> (r: &V)
        requires
            i < self.entries().len(),
        ensures
            *r == self.entries()[i as int].1,
    {
        &self.slots[i].1
    }

    /// The place of a key: the first entry that does not come before it.
    fn search(&self, key: &K) -> (r: usize)
        ensures
            r <= self.entries().len(),
            forall|i: int| 0 <= i < r ==> K::lt(#[trigger] self.entries()[i].0, key.model()),
            forall|i: int| r <= i < self.entries().len() ==> !K::lt(#[trigger] self.entries()[i].0, key.model()),
            ascending::<K, V>(self.entries()),
    {
        proof {
            use_type_invariant(self);
        }
        let ghost es = self.entries();
        let mut i: usize = 0;
        while i < self.slots.len() && self.slots[i].0.precedes(key)
            invariant
                i <= self.slots.len(),
                es == self.entries(),
                es.len() == self.slots.len(),
                ascending::<K, V>(es),
                forall|k: int| 0 <= k < i ==> K::lt(#[trigger] es[k].0, key.model()),
            ensures
                i < es.len() ==> !K::lt(es[i as int].0, key.model()),
            decreases self.slots.len() - i,
        {
            assert(es[i as int].0 == self.slots@[i as int].0.model());
            i = i + 1;
        }
        proof {
            assert forall|k: int| i <= k < es.len() implies !K::lt(#[trigger] es[k].0, key.model()) by {
                if k > i && K::lt(es[k].0, key.model()) {
                    assert(K::lt(es[i as int].0, es[k].0));
                    K::law_transitive(es[i as int].0, es[k].0, key.model());
                }
            }
        }
        i
    }

    /// The value of a key, where it is present.
    #[must_use]
    pub fn get(&self, key: &K) -> (r: Option<&V>)
        ensures
            match r {
                Some(v) => self@.dom().contains(key.model()) && *v == self@[key.model()],
                None => !self@.dom().contains(key.model()),
            },
    {
        let i: usize = self.search(key);
        let ghost es = self.entries();
        if i < self.slots.len() {
            assert(es[i as int].0 == self.slots@[i as int].0.model());
            if !key.precedes(&self.slots[i].0) {
                proof {
                    K::law_total(key.model(), es[i as int].0);
                    lemma_entry::<K, V>(es, i as int);
                }
                return Some(&self.slots[i].1);
            }
        }
        proof {
            if has_key::<K, V>(es, key.model()) {
                let j = place_of::<K, V>(es, key.model());
                if j < i {
                    K::law_asymmetric(es[j].0, key.model());
                } else if i < j {
                    assert(K::lt(es[i as int].0, es[j].0));
                } else {
                    K::law_asymmetric(key.model(), es[i as int].0);
                }
            }
        }
        None
    }

    /// Puts a value under a key and returns the value that was there before.
    pub fn insert(&mut self, key: K, value: V) -> (r: Option<V>)
        ensures
            final(self)@ == old(self)@.insert(key.model(), value),
            match r {
                Some(v) => old(self)@.dom().contains(key.model()) && v == old(self)@[key.model()],
                None => !old(self)@.dom().contains(key.model()),
            },
    {
        let i: usize = self.search(&key);
        let ghost es = self.entries();
        let ghost name = key.model();
        let mut slots: Vec<(K, V)> = Vec::new();
        std::mem::swap(&mut slots, &mut self.slots);
        if i < slots.len() {
            assert(es[i as int].0 == slots@[i as int].0.model());
            if !key.precedes(&slots[i].0) {
                proof {
                    K::law_total(name, es[i as int].0);
                    lemma_entry::<K, V>(es, i as int);
                }
                let before = slots.remove(i);
                slots.insert(i, (key, value));
                proof {
                    let after = slot_entries::<K, V>(slots@);
                    assert(after =~= es.update(i as int, (name, value)));
                    lemma_replaced::<K, V>(es, i as int, value);
                }
                self.slots = slots;
                return Some(before.1);
            }
        }
        proof {
            if has_key::<K, V>(es, name) {
                let j = place_of::<K, V>(es, name);
                if j < i {
                    K::law_asymmetric(es[j].0, name);
                } else if i < j {
                    assert(K::lt(es[i as int].0, es[j].0));
                } else {
                    K::law_asymmetric(name, es[i as int].0);
                }
            }
            lemma_inserted::<K, V>(es, i as int, name, value);
        }
        slots.insert(i, (key, value));
        assert(slot_entries::<K, V>(slots@) =~= es.insert(i as int, (name, value)));
        self.slots = slots;
        None
    }
}

impl<K: Key, V> View for OrderedMap<K, V> {
    type V = Map<K::Model, V>;

    open spec fn view(&self) -> Map<K::Model, V> {
        as_map::<K, V>(self.entries())
    }
}

proof fn lemma_replaced<K: Key, V>(es: Seq<(K::Model, V)>, i: int, value: V)
    requires
        ascending::<K, V>(es),
        0 <= i < es.len(),
    ensures
        ascending::<K, V>(es.update(i, (es[i].0, value))),
        as_map::<K, V>(es.update(i, (es[i].0, value))) == as_map::<K, V>(es).insert(es[i].0, value),
{
    let key = es[i].0;
    let after = es.update(i, (key, value));
    assert forall|a: int, b: int| 0 <= a < b < after.len() implies K::lt(#[trigger] after[a].0, #[trigger] after[b].0) by {
        assert(K::lt(es[a].0, es[b].0));
    }
    let large = as_map::<K, V>(after);
    let small = as_map::<K, V>(es).insert(key, value);
    assert forall|k: K::Model| large.dom().contains(k) <==> small.dom().contains(k) by {
        if has_key::<K, V>(after, k) {
            let j = place_of::<K, V>(after, k);
            assert(es[j].0 == k);
        }
        if has_key::<K, V>(es, k) {
            let j = place_of::<K, V>(es, k);
            assert(after[j].0 == k);
        }
        assert(after[i].0 == key);
    }
    assert forall|k: K::Model| large.dom().contains(k) implies large[k] == small[k] by {
        let j = place_of::<K, V>(after, k);
        lemma_entry::<K, V>(after, j);
        lemma_entry::<K, V>(es, j);
        lemma_entry::<K, V>(after, i);
    }
    assert(large =~= small);
}

proof fn lemma_inserted<K: Key, V>(es: Seq<(K::Model, V)>, i: int, key: K::Model, value: V)
    requires
        ascending::<K, V>(es),
        0 <= i <= es.len(),
        !has_key::<K, V>(es, key),
        forall|k: int| 0 <= k < i ==> K::lt(#[trigger] es[k].0, key),
        forall|k: int| i <= k < es.len() ==> !K::lt(#[trigger] es[k].0, key),
    ensures
        ascending::<K, V>(es.insert(i, (key, value))),
        as_map::<K, V>(es.insert(i, (key, value))) == as_map::<K, V>(es).insert(key, value),
{
    let after = es.insert(i, (key, value));
    assert forall|k: int| i <= k < es.len() implies K::lt(key, #[trigger] es[k].0) by {
        K::law_total(es[k].0, key);
    }
    assert forall|a: int, b: int| 0 <= a < b < after.len() implies K::lt(#[trigger] after[a].0, #[trigger] after[b].0) by {
        let x = if a < i {
            a
        } else {
            a - 1
        };
        let y = if b < i {
            b
        } else {
            b - 1
        };
        if a != i && b != i {
            assert(K::lt(es[x].0, es[y].0));
            assert(after[a] == es[x]);
            assert(after[b] == es[y]);
        } else if a == i {
            assert(after[b] == es[y]);
        } else {
            assert(after[a] == es[x]);
        }
    }
    let large = as_map::<K, V>(after);
    let small = as_map::<K, V>(es).insert(key, value);
    assert(after[i].0 == key);
    assert forall|k: K::Model| large.dom().contains(k) <==> small.dom().contains(k) by {
        if has_key::<K, V>(after, k) {
            let j = place_of::<K, V>(after, k);
            if j < i {
                assert(es[j].0 == k);
            } else if j > i {
                assert(es[j - 1].0 == k);
            }
        }
        if has_key::<K, V>(es, k) {
            let j = place_of::<K, V>(es, k);
            if j < i {
                assert(after[j].0 == k);
            } else {
                assert(after[j + 1].0 == k);
            }
        }
    }
    assert forall|k: K::Model| large.dom().contains(k) implies large[k] == small[k] by {
        let j = place_of::<K, V>(after, k);
        lemma_entry::<K, V>(after, j);
        if j < i {
            assert(es[j] == after[j]);
            lemma_entry::<K, V>(es, j);
        } else if j > i {
            assert(es[j - 1] == after[j]);
            lemma_entry::<K, V>(es, j - 1);
        }
        lemma_entry::<K, V>(after, i);
    }
    assert(large =~= small);
}

/// What is said of entries that are not in ascending key order.
pub open spec fn order_detail() -> Seq<char> {
    "the entries are not in strictly ascending key order (a canonical encoding has exactly one byte string per value)"@
}

/// Reads `n` entries in a row. Each key has to come after the one before.
pub open spec fn parse_entries<K: Key, V: Codec>(bytes: Seq<u8>, n: nat) -> Parsed<Seq<(K::Model, V::Model)>>
    decreases n,
{
    if n == 0 {
        Ok((Seq::empty(), 0))
    } else {
        match parse_entries::<K, V>(bytes, (n - 1) as nat) {
            Ok((es, k)) => match K::parse(bytes.skip(k)) {
                Ok((key, m)) => if es.len() > 0 && !K::lt(es.last().0, key) {
                    Err(ErrorView::malformed("BTreeMap"@, order_detail()))
                } else {
                    match V::parse(bytes.skip(k + m)) {
                        Ok((v, l)) => Ok((es.push((key, v)), k + m + l)),
                        Err(e) => Err(e),
                    }
                },
                Err(e) => Err(e),
            },
            Err(e) => Err(e),
        }
    }
}

proof fn lemma_entries_fail<K: Key, V: Codec>(bytes: Seq<u8>, i: nat, n: nat)
    requires
        i <= n,
        parse_entries::<K, V>(bytes, i) is Err,
    ensures
        parse_entries::<K, V>(bytes, n) == parse_entries::<K, V>(bytes, i),
    decreases n,
{
    if i < n {
        lemma_entries_fail::<K, V>(bytes, i, (n - 1) as nat);
    }
}

proof fn lemma_entries_canonical<K: Key, V: Codec>(bytes: Seq<u8>, n: nat)
    requires
        parse_entries::<K, V>(bytes, n) is Ok,
    ensures
        parse_entries::<K, V>(bytes, n)->Ok_0.0.len() == n,
        ascending::<K, V::Model>(parse_entries::<K, V>(bytes, n)->Ok_0.0),
        0 <= parse_entries::<K, V>(bytes, n)->Ok_0.1 <= bytes.len(),
        bytes.take(parse_entries::<K, V>(bytes, n)->Ok_0.1) == container::row::<(K, V)>(
            parse_entries::<K, V>(bytes, n)->Ok_0.0,
        ),
    decreases n,
{
    if n > 0 {
        lemma_entries_canonical::<K, V>(bytes, (n - 1) as nat);
        let (es, k) = parse_entries::<K, V>(bytes, (n - 1) as nat)->Ok_0;
        K::law_canonical(bytes.skip(k));
        let (key, m) = K::parse(bytes.skip(k))->Ok_0;
        V::law_canonical(bytes.skip(k + m));
        let (v, l) = V::parse(bytes.skip(k + m))->Ok_0;
        let all = es.push((key, v));
        assert forall|i: int, j: int| 0 <= i < j < all.len() implies K::lt(#[trigger] all[i].0, #[trigger] all[j].0) by {
            if j < es.len() {
                assert(K::lt(es[i].0, es[j].0));
            } else if i < es.len() - 1 {
                assert(K::lt(es[i].0, es[es.len() - 1].0));
                K::law_transitive(es[i].0, es.last().0, key);
            }
        }
        assert(all.drop_last() =~= es);
        assert(bytes.take(k + m + l) =~= bytes.take(k) + (bytes.skip(k).take(m) + bytes.skip(k + m).take(l)));
    } else {
        assert(bytes.take(0) =~= Seq::<u8>::empty());
    }
}

proof fn lemma_entries_round_trip<K: Key, V: Codec>(es: Seq<(K::Model, V::Model)>, rest: Seq<u8>)
    requires
        ascending::<K, V::Model>(es),
        forall|i: int| 0 <= i < es.len() ==> <(K, V)>::representable(#[trigger] es[i]),
    ensures
        parse_entries::<K, V>(container::row::<(K, V)>(es) + rest, es.len()) == Ok::<_, ErrorView>(
            (es, container::row::<(K, V)>(es).len() as int),
        ),
    decreases es.len(),
{
    if es.len() > 0 {
        let front = es.drop_last();
        let (key, v) = es.last();
        let tail = V::body(v) + rest;
        let more = K::body(key) + tail;
        assert forall|i: int| 0 <= i < front.len() implies <(K, V)>::representable(#[trigger] front[i]) by {
            assert(front[i] == es[i]);
        }
        assert forall|i: int, j: int| 0 <= i < j < front.len() implies K::lt(
            #[trigger] front[i].0,
            #[trigger] front[j].0,
        ) by {
            assert(K::lt(es[i].0, es[j].0));
        }
        lemma_entries_round_trip::<K, V>(front, more);
        let all = container::row::<(K, V)>(es) + rest;
        let k = container::row::<(K, V)>(front).len() as int;
        assert(all =~= container::row::<(K, V)>(front) + more);
        assert(all.skip(k) =~= more);
        assert(<(K, V)>::representable(es[es.len() - 1]));
        K::law_round_trip(key, tail);
        assert(all.skip(k + K::body(key).len()) =~= tail);
        V::law_round_trip(v, rest);
        if front.len() > 0 {
            assert(K::lt(es[es.len() - 2].0, es[es.len() - 1].0));
        }
        assert(front.push((key, v)) =~= es);
    } else {
        assert(es =~= Seq::<(K::Model, V::Model)>::empty());
    }
}

/// A map is the number of its entries, and their keys and values in ascending key order.
/// A refusal calls it by the name of the standard map.
impl<K: Key, V: Codec> Codec for OrderedMap<K, V> {
    type Model = Seq<(K::Model, V::Model)>;

    open spec fn model(&self) -> Seq<(K::Model, V::Model)> {
        self.entries().map_values(|e: (K::Model, V)| (e.0, e.1.model()))
    }

    open spec fn body(v: Seq<(K::Model, V::Model)>) -> Seq<u8> {
        bytes::le(v.len(), 8) + container::row::<(K, V)>(v)
    }

    open spec fn parse(bytes: Seq<u8>) -> Parsed<Seq<(K::Model, V::Model)>> {
        match payload::parse_len(bytes, "BTreeMap"@) {
            Ok((n, k)) => {
                let rest = bytes.skip(k);
                if container::plausible::<K>(n, rest.len()) {
                    match parse_entries::<K, V>(rest, n) {
                        Ok((es, m)) => Ok((es, k + m)),
                        Err(e) => Err(e),
                    }
                } else {
                    Err(ErrorView::Truncated { context: "BTreeMap"@, needed: n as int, available: rest.len() as int })
                }
            },
            Err(e) => Err(e),
        }
    }

    open spec fn sound() -> bool {
        &&& K::sound()
        &&& V::sound()
        &&& layout::size_of::<K>() > 0 ==> forall|k: K::Model| (#[trigger] K::body(k)).len() > 0
    }

    open spec fn representable(v: Seq<(K::Model, V::Model)>) -> bool {
        &&& v.len() <= usize::MAX
        &&& ascending::<K, V::Model>(v)
        &&& forall|i: int| 0 <= i < v.len() ==> <(K, V)>::representable(#[trigger] v[i])
        &&& container::plausible::<K>(v.len(), container::row::<(K, V)>(v).len())
    }

    fn encode_body(&self, out: &mut Vec<u8>) {
        proof {
            use_type_invariant(self);
        }
        let ghost start = out@;
        let ghost all = self.model();
        let n: usize = self.slots.len();
        encode_len(n, out);
        let ghost head = out@;
        let mut i: usize = 0;
        assert(all.take(0) =~= Seq::<(K::Model, V::Model)>::empty());
        assert(out@ =~= head + container::row::<(K, V)>(all.take(0)));
        while i < n
            invariant
                n == self.slots.len(),
                i <= n,
                all == self.model(),
                all.len() == n,
                out@ == head + container::row::<(K, V)>(all.take(i as int)),
                K::sound() && V::sound() ==> forall|k: int|
                    0 <= k < i ==> <(K, V)>::representable(#[trigger] all[k]),
            decreases n - i,
        {
            let ghost before = out@;
            self.slots[i].0.encode_body(out);
            self.slots[i].1.encode_body(out);
            proof {
                let next = all.take(i + 1);
                assert(next.drop_last() =~= all.take(i as int));
                assert(next.last() == (self.slots@[i as int].0.model(), self.slots@[i as int].1.model()));
                assert(out@ =~= head + container::row::<(K, V)>(next));
            }
            i = i + 1;
        }
        proof {
            assert(all.take(n as int) =~= all);
            assert(out@ =~= start + Self::body(all));
            assert forall|i: int, j: int| 0 <= i < j < all.len() implies K::lt(#[trigger] all[i].0, #[trigger] all[j].0) by {
                assert(K::lt(self.entries()[i].0, self.entries()[j].0));
            }
            if Self::sound() && layout::size_of::<K>() > 0 {
                assert forall|e: (K::Model, V::Model)| (#[trigger] <(K, V)>::body(e)).len() > 0 by {
                    assert(K::body(e.0).len() > 0);
                }
                container::lemma_row_len::<(K, V)>(all);
            }
        }
    }

    fn decode_body(cursor: &mut Cursor<'_>) -> (r: Result<Self, CodecError>) {
        let ghost start = cursor@;
        let count: usize = match cursor.take_len("BTreeMap") {
            Ok(n) => n,
            Err(e) => return Err(e),
        };
        let ghost rest = start.rest().skip(8);
        let ghost first = cursor@.position;
        proof {
            payload::lemma_uint_canonical(start.rest(), 8, "BTreeMap"@);
            assert(cursor@.rest() =~= rest);
        }
        match check_element_count::<K>(count, cursor, "BTreeMap") {
            Ok(_) => {},
            Err(e) => return Err(e),
        }
        let mut slots: Vec<(K, V)> = Vec::new();
        let mut i: usize = 0;
        assert(models::<K, V>(slots@) =~= Seq::<(K::Model, V::Model)>::empty());
        while i < count
            invariant
                i <= count,
                cursor.wf(),
                start == old(cursor)@,
                cursor@.bytes == start.bytes,
                payload::parse_len(start.rest(), "BTreeMap"@) == Ok::<_, ErrorView>((count as nat, 8int)),
                rest == start.rest().skip(8),
                rest == cursor@.bytes.skip(first),
                first == start.position + 8,
                0 <= first <= cursor@.position,
                container::plausible::<K>(count as nat, rest.len()),
                slots.len() == i,
                parse_entries::<K, V>(rest, i as nat) == Ok::<_, ErrorView>(
                    (models::<K, V>(slots@), cursor@.position - first),
                ),
            decreases count - i,
        {
            let ghost before = models::<K, V>(slots@);
            let ghost at = cursor@.position - first;
            assert(cursor@.rest() =~= rest.skip(at));
            let key = match K::decode_body(cursor) {
                Ok(k) => k,
                Err(e) => {
                    proof {
                        lemma_entries_fail::<K, V>(rest, (i + 1) as nat, count as nat);
                    }
                    return Err(e);
                },
            };
            proof {
                K::law_canonical(rest.skip(at));
                assert(cursor@.rest() =~= rest.skip(cursor@.position - first));
            }
            if i > 0 {
                assert(before.last().0 == slots@[i - 1].0.model());
                if !slots[i - 1].0.precedes(&key) {
                    proof {
                        lemma_entries_fail::<K, V>(rest, (i + 1) as nat, count as nat);
                    }
                    return Err(
                        CodecError::malformed(
                            "BTreeMap",
                            "the entries are not in strictly ascending key order (a canonical encoding has exactly one byte string per value)",
                        ),
                    );
                }
            }
            match V::decode_body(cursor) {
                Ok(value) => {
                    let ghost entry = (key.model(), value.model());
                    slots.push((key, value));
                    assert(models::<K, V>(slots@) =~= before.push(entry));
                },
                Err(e) => {
                    proof {
                        lemma_entries_fail::<K, V>(rest, (i + 1) as nat, count as nat);
                    }
                    return Err(e);
                },
            }
            proof {
                lemma_entries_canonical::<K, V>(rest, (i + 1) as nat);
            }
            i = i + 1;
        }
        proof {
            lemma_entries_canonical::<K, V>(rest, count as nat);
            let es = slot_entries::<K, V>(slots@);
            let ms = models::<K, V>(slots@);
            assert forall|i: int, j: int| 0 <= i < j < es.len() implies K::lt(#[trigger] es[i].0, #[trigger] es[j].0) by {
                assert(K::lt(ms[i].0, ms[j].0));
            }
        }
        let map = OrderedMap { slots };
        assert(map.model() =~= models::<K, V>(slots@));
        Ok(map)
    }

    proof fn law_round_trip(v: Seq<(K::Model, V::Model)>, rest: Seq<u8>) {
        let tail = container::row::<(K, V)>(v) + rest;
        bytes::lemma_bounds();
        bytes::lemma_le_len(v.len(), 8);
        assert(Self::body(v) + rest =~= bytes::le(v.len(), 8) + tail);
        payload::lemma_uint_round_trip(v.len(), 8, tail, "BTreeMap"@);
        assert((Self::body(v) + rest).skip(8) =~= tail);
        lemma_entries_round_trip::<K, V>(v, rest);
    }

    proof fn law_canonical(bytes: Seq<u8>) {
        payload::lemma_uint_canonical(bytes, 8, "BTreeMap"@);
        let n = payload::parse_len(bytes, "BTreeMap"@)->Ok_0.0;
        lemma_entries_canonical::<K, V>(bytes.skip(8), n);
        let m = parse_entries::<K, V>(bytes.skip(8), n)->Ok_0.1;
        assert(bytes.take(8 + m) =~= bytes.take(8) + bytes.skip(8).take(m));
    }
}

/// What slots stand for.
spec fn models<K: Key, V: Codec>(slots: Seq<(K, V)>) -> Seq<(K::Model, V::Model)> {
    slots.map_values(|s: (K, V)| (s.0.model(), s.1.model()))
}

/// The order in which entries were put into a map does not reach its bytes: two maps that
/// hold the same are written the same.
pub proof fn law_insertion_order_is_invisible<K: Key, V: Codec>(a: Seq<(K::Model, V::Model)>, b: Seq<(K::Model, V::Model)>)
    requires
        ascending::<K, V::Model>(a),
        ascending::<K, V::Model>(b),
        as_map::<K, V::Model>(a) == as_map::<K, V::Model>(b),
    ensures
        OrderedMap::<K, V>::body(a) == OrderedMap::<K, V>::body(b),
{
    law_one_order::<K, V::Model>(a, b);
}

} // verus!
