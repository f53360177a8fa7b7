//! Maps keyed by text.

use crate::text::{
    lemma_text_irreflexive, lemma_text_total, lemma_text_transitive, precedes, same_text, text_less,
};
use vstd::prelude::*;
use vstd::string::*;

verus! {

struct Entry<V> {
    key: String,
    value: V,
}

/// A map from texts to values. Its entries are kept in the order of their keys, so that a key
/// is found by bisection and occurs once.
pub struct Table<V> {
    entries: Vec<Entry<V>>,
}

spec fn keys_of<V>(entries: Seq<Entry<V>>) -> Seq<Seq<char>> {
    Seq::new(entries.len(), |i: int| entries[i].key@)
}

spec fn sorted(keys: Seq<Seq<char>>) -> bool {
    forall|i: int, j: int| 0 <= i < j < keys.len() ==> text_less(#[trigger] keys[i], #[trigger] keys[j])
}

spec fn map_of<V>(entries: Seq<Entry<V>>) -> Map<Seq<char>, V> {
    Map::new(
        |k: Seq<char>| keys_of(entries).contains(k),
        |k: Seq<char>| entries[keys_of(entries).index_of(k)].value,
    )
}

/// A map with each value taken by its view.
pub open spec fn views_of<V: View>(values: Map<Seq<char>, V>) -> Map<Seq<char>, V::V> {
    values.map_values(|value: V| value@)
}

proof fn lemma_sorted_unique(keys: Seq<Seq<char>>)
    requires
        sorted(keys),
    ensures
        keys.no_duplicates(),
{
    assert forall|i: int, j: int|
        0 <= i < keys.len() && 0 <= j < keys.len() && i != j implies keys[i] != keys[j] by {
        lemma_text_irreflexive(keys[i]);
        if i < j {
            assert(text_less(keys[i], keys[j]));
        } else {
            assert(text_less(keys[j], keys[i]));
        }
    }
}

proof fn lemma_map_at<V>(entries: Seq<Entry<V>>, i: int)
    requires
        sorted(keys_of(entries)),
        0 <= i < entries.len(),
    ensures
        map_of(entries).dom().contains(entries[i].key@),
        map_of(entries)[entries[i].key@] == entries[i].value,
{
    lemma_sorted_unique(keys_of(entries));
    let keys = keys_of(entries);
    assert(keys[i] == entries[i].key@);
    assert(keys.contains(entries[i].key@));
    let j = keys.index_of(entries[i].key@);
    assert(keys[j] == keys[i] && 0 <= j < keys.len());
}

proof fn lemma_map_update<V>(entries: Seq<Entry<V>>, i: int, key: String, value: V)
    requires
        sorted(keys_of(entries)),
        0 <= i < entries.len(),
        key@ == entries[i].key@,
    ensures
        keys_of(entries.update(i, Entry { key, value })) == keys_of(entries),
        map_of(entries.update(i, Entry { key, value })) == map_of(entries).insert(
            key@,
            value,
        ),
{
    let after = entries.update(i, Entry { key, value });
    assert(keys_of(after) =~= keys_of(entries));
    lemma_sorted_unique(keys_of(entries));
    let keys = keys_of(entries);
    assert(keys[i] == key@);
    assert forall|k: Seq<char>| keys.contains(k) implies #[trigger] map_of(after)[k] == map_of(
        entries,
    ).insert(key@, value)[k] by {
        let j = keys.index_of(k);
        assert(keys[j] == k);
        assert(k == key@ <==> j == i);
    }
    assert(map_of(after) =~= map_of(entries).insert(key@, value));
}

proof fn lemma_map_insert<V>(entries: Seq<Entry<V>>, i: int, entry: Entry<V>)
    requires
        sorted(keys_of(entries)),
        0 <= i <= entries.len(),
        forall|j: int| 0 <= j < i ==> text_less(#[trigger] keys_of(entries)[j], entry.key@),
        forall|j: int|
            i <= j < entries.len() ==> text_less(entry.key@, #[trigger] keys_of(entries)[j]),
    ensures
        sorted(keys_of(entries.insert(i, entry))),
        map_of(entries.insert(i, entry)) == map_of(entries).insert(entry.key@, entry.value),
{
    let after = entries.insert(i, entry);
    let keys = keys_of(entries);
    let now = keys_of(after);
    assert(now =~= keys.insert(i, entry.key@));
    assert forall|a: int, b: int| 0 <= a < b < now.len() implies text_less(
        #[trigger] now[a],
        #[trigger] now[b],
    ) by {
        let a0 = if a > i { a - 1 } else { a };
        let b0 = if b > i { b - 1 } else { b };
        if a == i {
            assert(keys[b0] == now[b]);
        } else if b == i {
            assert(keys[a0] == now[a]);
        } else {
            assert(keys[a0] == now[a] && keys[b0] == now[b]);
        }
    }
    lemma_sorted_unique(now);
    lemma_sorted_unique(keys);
    assert forall|k: Seq<char>| now.contains(k) <==> (keys.contains(k) || k == entry.key@) by {
        if keys.contains(k) {
            let j = keys.index_of(k);
            assert(now[if j < i { j } else { j + 1 }] == k);
        }
        if k == entry.key@ {
            assert(now[i] == k);
        }
        if now.contains(k) {
            let j = now.index_of(k);
            if j != i {
                assert(keys[if j < i { j } else { j - 1 }] == k);
            }
        }
    }
    assert forall|k: Seq<char>| now.contains(k) implies #[trigger] map_of(after)[k] == map_of(
        entries,
    ).insert(entry.key@, entry.value)[k] by {
        let j = now.index_of(k);
        assert(now[j] == k);
        assert(now[i] == entry.key@);
        if j != i {
            let j0 = if j < i { j } else { j - 1 };
            assert(keys[j0] == k);
            lemma_map_at(entries, j0);
        }
    }
    assert(map_of(after) =~= map_of(entries).insert(entry.key@, entry.value));
}

proof fn lemma_map_remove<V>(entries: Seq<Entry<V>>, i: int)
    requires
        sorted(keys_of(entries)),
        0 <= i < entries.len(),
    ensures
        sorted(keys_of(entries.remove(i))),
        keys_of(entries.remove(i)) == keys_of(entries).remove(i),
        map_of(entries.remove(i)) == map_of(entries).remove(entries[i].key@),
{
    let after = entries.remove(i);
    let keys = keys_of(entries);
    let now = keys_of(after);
    assert(now =~= keys.remove(i));
    assert forall|a: int, b: int| 0 <= a < b < now.len() implies text_less(
        #[trigger] now[a],
        #[trigger] now[b],
    ) by {
        let a0 = if a >= i { a + 1 } else { a };
        let b0 = if b >= i { b + 1 } else { b };
        assert(keys[a0] == now[a] && keys[b0] == now[b]);
    }
    lemma_sorted_unique(now);
    lemma_sorted_unique(keys);
    assert(keys[i] == entries[i].key@);
    assert forall|k: Seq<char>| now.contains(k) <==> (keys.contains(k) && k != keys[i]) by {
        if keys.contains(k) && k != keys[i] {
            let j = keys.index_of(k);
            assert(now[if j < i { j } else { j - 1 }] == k);
        }
        if now.contains(k) {
            let j = now.index_of(k);
            assert(keys[if j < i { j } else { j + 1 }] == k);
        }
    }
    assert forall|k: Seq<char>| now.contains(k) implies #[trigger] map_of(after)[k] == map_of(
        entries,
    )[k] by {
        let j = now.index_of(k);
        assert(now[j] == k);
        let j0 = if j < i { j } else { j + 1 };
        assert(keys[j0] == k);
        lemma_map_at(entries, j0);
    }
    assert(map_of(after) =~= map_of(entries).remove(entries[i].key@));
}

/// Setting a value sets its view.
pub proof fn lemma_views_insert<V: View>(values: Map<Seq<char>, V>, key: Seq<char>, value: V)
    ensures
        views_of(values.insert(key, value)) == views_of(values).insert(key, value@),
{
    assert(views_of(values.insert(key, value)) =~= views_of(values).insert(key, value@));
}

/// Removing a value removes its view.
pub proof fn lemma_views_remove<V: View>(values: Map<Seq<char>, V>, key: Seq<char>)
    ensures
        views_of(values.remove(key)) == views_of(values).remove(key),
{
    assert(views_of(values.remove(key)) =~= views_of(values).remove(key));
}

impl<V: View> View for Table<V> {
    type V = Map<Seq<char>, V::V>;

    closed spec fn view(&self) -> Map<Seq<char>, V::V> {
        views_of(map_of(self.entries@))
    }
}

impl<V: View> Table<V> {
    /// The keys stand in strict order.
    pub closed spec fn wf(self) -> bool {
        sorted(keys_of(self.entries@))
    }

    /// The values by their keys.
    pub closed spec fn values(self) -> Map<Seq<char>, V> {
        map_of(self.entries@)
    }

    /// The keys, in order.
    pub closed spec fn keys(self) -> Seq<Seq<char>> {
        keys_of(self.entries@)
    }

    /// The listed keys are the keys of the map, each once.
    pub proof fn lemma_keys(self)
        requires
            self.wf(),
        ensures
            self.keys().no_duplicates(),
            forall|i: int, j: int|
                0 <= i < j < self.keys().len() ==> text_less(
                    #[trigger] self.keys()[i],
                    #[trigger] self.keys()[j],
                ),
            forall|k: Seq<char>| #[trigger] self@.dom().contains(k) <==> self.keys().contains(k),
            forall|i: int|
                0 <= i < self.keys().len() ==> self@.dom().contains(#[trigger] self.keys()[i]),
            self@ == views_of(self.values()),
            self@.dom() == self.values().dom(),
            lists(self.keys(), self@.dom()),
            self.keys() == in_order(self@.dom()),
    {
        lemma_sorted_unique(self.keys());
        assert(self@.dom() =~= self.values().dom());
        assert(lists(self.keys(), self@.dom()));
        lemma_lists_unique(self.keys(), in_order(self@.dom()), self@.dom());
    }

    /// An empty table.
    pub fn new() -> (table: Table<V>)
        ensures
            table.wf(),
            table@ == Map::<Seq<char>, V::V>::empty(),
            table.values() == Map::<Seq<char>, V>::empty(),
            table.keys().len() == 0,
    {
        let table = Table { entries: Vec::new() };
        assert(table.values() =~= Map::<Seq<char>, V>::empty());
        assert(table@ =~= Map::<Seq<char>, V::V>::empty());
        table
    }

    /// The number of entries.
    pub fn len(&self) -> (n: usize)
        ensures
            n == self.keys().len(),
    {
        self.entries.len()
    }

    /// The place of a key, or where it would stand.
    fn locate(&self, key: &str) -> (at: (bool, usize))
        requires
            self.wf(),
        ensures
            at.1 <= self.entries@.len(),
            at.0 == self@.dom().contains(key@),
            at.0 ==> at.1 < self.entries@.len() && self.entries@[at.1 as int].key@ == key@,
            !at.0 ==> forall|i: int|
                0 <= i < at.1 ==> text_less(#[trigger] self.keys()[i], key@),
            !at.0 ==> forall|i: int|
                at.1 <= i < self.entries@.len() ==> text_less(key@, #[trigger] self.keys()[i]),
    {
        let mut low: usize = 0;
        let mut high: usize = self.entries.len();
        while low < high
            invariant
                self.wf(),
                low <= high <= self.entries@.len(),
                forall|i: int| 0 <= i < low ==> text_less(#[trigger] self.keys()[i], key@),
                forall|i: int|
                    high <= i < self.entries@.len() ==> text_less(key@, #[trigger] self.keys()[i]),
            decreases high - low,
        {
            let middle = low + (high - low) / 2;
            let ghost here = self.keys()[middle as int];
            if same_text(self.entries[middle].key.as_str(), key) {
                assert(self.keys()[middle as int] == key@);
                return (true, middle);
            }
            if precedes(self.entries[middle].key.as_str(), key) {
                assert forall|i: int| 0 <= i < middle + 1 implies text_less(
                    #[trigger] self.keys()[i],
                    key@,
                ) by {
                    if i < middle {
                        lemma_text_transitive(self.keys()[i], here, key@);
                    }
                }
                low = middle + 1;
            } else {
                assert forall|i: int| middle <= i < self.entries@.len() implies text_less(
                    key@,
                    #[trigger] self.keys()[i],
                ) by {
                    lemma_text_total(here, key@);
                    if i > middle {
                        lemma_text_transitive(key@, here, self.keys()[i]);
                    }
                }
                high = middle;
            }
        }
        proof {
            if self.keys().contains(key@) {
                let i = self.keys().index_of(key@);
                assert(self.keys()[i] == key@);
                lemma_text_irreflexive(key@);
            }
        }
        (false, low)
    }

    /// Whether the key occurs.
    pub fn contains_key(&self, key: &str) -> (found: bool)
        requires
            self.wf(),
        ensures
            found == self@.dom().contains(key@),
    {
        self.locate(key).0
    }

    /// The value of a key.
    pub fn get(&self, key: &str) -> (value: Option<&V>)
        requires
            self.wf(),
        ensures
            match value {
                Some(value) => {
                    &&& self@.dom().contains(key@)
                    &&& *value == self.values()[key@]
                    &&& value@ == self@[key@]
                },
                None => !self@.dom().contains(key@),
            },
    {
        let (found, at) = self.locate(key);
        if found {
            proof {
                lemma_map_at(self.entries@, at as int);
            }
            Some(&self.entries[at].value)
        } else {
            None
        }
    }

    /// The value of a key, to be changed in place.
    pub fn get_mut(&mut self, key: &str) -> (value: Option<&mut V>)
        requires
            old(self).wf(),
        ensures
            match value {
                Some(value) => {
                    &&& old(self)@.dom().contains(key@)
                    &&& *value == old(self).values()[key@]
                    &&& (*value)@ == old(self)@[key@]
                    &&& final(self).wf()
                    &&& final(self).keys() == old(self).keys()
                    &&& final(self).values() == old(self).values().insert(key@, *final(value))
                    &&& final(self)@ == old(self)@.insert(key@, (*final(value))@)
                },
                None => !old(self)@.dom().contains(key@) && *final(self) == *old(self),
            },
    {
        let (found, at) = self.locate(key);
        if found {
            Some(self.value_mut_at(at))
        } else {
            None
        }
    }

    /// The key at a place.
    pub fn key_at(&self, at: usize) -> (key: &String)
        requires
            at < self.keys().len(),
        ensures
            key@ == self.keys()[at as int],
    {
        &self.entries[at].key
    }

    /// The value at a place.
    pub fn value_at(&self, at: usize) -> (value: &V)
        requires
            self.wf(),
            at < self.keys().len(),
        ensures
            *value == self.values()[self.keys()[at as int]],
            value@ == self@[self.keys()[at as int]],
    {
        proof {
            lemma_map_at(self.entries@, at as int);
        }
        &self.entries[at].value
    }

    /// The value at a place, to be changed in place.
    pub fn value_mut_at(&mut self, at: usize) -> (value: &mut V)
        requires
            old(self).wf(),
            at < old(self).keys().len(),
        ensures
            *value == old(self).values()[old(self).keys()[at as int]],
            (*value)@ == old(self)@[old(self).keys()[at as int]],
            final(self).wf(),
            final(self).keys() == old(self).keys(),
            final(self).values() == old(self).values().insert(
                old(self).keys()[at as int],
                *final(value),
            ),
            final(self)@ == old(self)@.insert(old(self).keys()[at as int], (*final(value))@),
    {
        let ghost before = self.entries@;
        proof {
            lemma_map_at(before, at as int);
        }
        let value = &mut self.entries[at].value;
        proof {
            lemma_map_update(before, at as int, before[at as int].key, *final(value));
            assert(after_borrow(self).entries@ =~= before.update(
                at as int,
                Entry { key: before[at as int].key, value: *final(value) },
            ));
            lemma_views_insert(map_of(before), before[at as int].key@, *final(value));
        }
        value
    }

    /// Sets the value of a key.
    pub fn insert(&mut self, key: String, value: V)
        requires
            old(self).wf(),
        ensures
            final(self).wf(),
            final(self).values() == old(self).values().insert(key@, value),
            final(self)@ == old(self)@.insert(key@, value@),
    {
        let (found, at) = self.locate(key.as_str());
        let ghost before = self.entries@;
        assert(self.keys() == keys_of(before));
        proof {
            lemma_views_insert(map_of(before), key@, value);
        }
        if found {
            proof {
                lemma_map_update(before, at as int, key, value);
            }
            self.entries.set(at, Entry { key, value });
        } else {
            proof {
                lemma_map_insert(before, at as int, Entry { key, value });
            }
            self.entries.insert(at, Entry { key, value });
        }
    }

    /// Removes a key, if it occurs.
    pub fn remove(&mut self, key: &str)
        requires
            old(self).wf(),
        ensures
            final(self).wf(),
            final(self).values() == old(self).values().remove(key@),
            final(self)@ == old(self)@.remove(key@),
    {
        proof {
            lemma_views_remove(self.values(), key@);
        }
        let (found, at) = self.locate(key);
        if found {
            proof {
                lemma_map_remove(self.entries@, at as int);
            }
            self.entries.remove(at);
        } else {
            assert(self.values().remove(key@) =~= self.values());
            assert(self@.remove(key@) =~= self@);
        }
    }

    /// Removes the entries whose mark is false; the marks stand in the order of the keys.
    pub fn retain_marked(&mut self, marks: &Vec<bool>)
        requires
            old(self).wf(),
            marks@.len() == old(self).keys().len(),
        ensures
            final(self).wf(),
            final(self).values() == old(self).values().restrict(
                marked(old(self).keys(), marks@),
            ),
            final(self)@ == old(self)@.restrict(marked(old(self).keys(), marks@)),
    {
        let ghost before = *self;
        let mut at: usize = self.entries.len();
        proof {
            self.lemma_keys();
            assert(before.values().restrict(unmarked_from(before.keys(), marks@, at as int)) =~= before.values());
        }
        while at > 0
            invariant
                before.wf(),
                self.wf(),
                marks@.len() == before.keys().len(),
                at <= self.entries@.len(),
                at <= marks@.len(),
                forall|i: int| 0 <= i < at ==> self.entries@[i] == before.entries@[i],
                self.values() == before.values().restrict(unmarked_from(before.keys(), marks@, at as int)),
            decreases at,
        {
            at -= 1;
            let ghost key = before.keys()[at as int];
            let ghost seen = self.values();
            proof {
                before.lemma_keys();
                assert(self.entries@[at as int].key@ == key);
            }
            if !marks[at] {
                proof {
                    lemma_map_remove(self.entries@, at as int);
                }
                self.entries.remove(at);
                assert(self.values() == seen.remove(key));
            }
            assert forall|k: Seq<char>| #[trigger]
                unmarked_from(before.keys(), marks@, at as int).contains(k) == (unmarked_from(
                    before.keys(),
                    marks@,
                    at + 1,
                ).contains(k) && (marks@[at as int] || k != key)) by {}
            assert(self.values() =~= before.values().restrict(unmarked_from(before.keys(), marks@, at as int)));
        }
        proof {
            before.lemma_keys();
            assert forall|k: Seq<char>| before.values().dom().contains(k) implies (unmarked_from(
                before.keys(),
                marks@,
                0,
            ).contains(k) == marked(before.keys(), marks@).contains(k)) by {
                let i = before.keys().index_of(k);
                assert(before.keys()[i] == k);
            }
            assert(self.values() =~= before.values().restrict(marked(before.keys(), marks@)));
            assert(self@ =~= before@.restrict(marked(before.keys(), marks@)));
        }
    }
}

/// Whether `keys` lists the texts of a set, each once and in order.
pub open spec fn lists(keys: Seq<Seq<char>>, set: Set<Seq<char>>) -> bool {
    &&& forall|i: int, j: int|
        0 <= i < j < keys.len() ==> text_less(#[trigger] keys[i], #[trigger] keys[j])
    &&& forall|k: Seq<char>| #[trigger] set.contains(k) <==> keys.contains(k)
}

/// The texts of a finite set, in order.
pub open spec fn in_order(set: Set<Seq<char>>) -> Seq<Seq<char>> {
    choose|keys: Seq<Seq<char>>| lists(keys, set)
}

/// A set is listed in one way only.
pub proof fn lemma_lists_unique(a: Seq<Seq<char>>, b: Seq<Seq<char>>, set: Set<Seq<char>>)
    requires
        lists(a, set),
        lists(b, set),
    ensures
        a == b,
    decreases a.len(),
{
    if a.len() == 0 || b.len() == 0 {
        if a.len() > 0 {
            assert(a.contains(a[0]));
            assert(set.contains(a[0]));
        }
        if b.len() > 0 {
            assert(b.contains(b[0]));
            assert(set.contains(b[0]));
        }
        assert(a =~= b);
    } else {
        let x = a.last();
        let y = b.last();
        assert(a.contains(x) && b.contains(y));
        assert(set.contains(x) && set.contains(y));
        let i = b.index_of(x);
        let j = a.index_of(y);
        lemma_text_irreflexive(x);
        if x != y {
            assert(text_less(b[i], b[b.len() - 1]));
            assert(text_less(a[j], a[a.len() - 1]));
            lemma_text_transitive(x, y, x);
        }
        lemma_lists_drop_last(a, set);
        lemma_lists_drop_last(b, set);
        lemma_lists_unique(a.drop_last(), b.drop_last(), set.remove(x));
        assert(a =~= a.drop_last().push(x));
        assert(b =~= b.drop_last().push(y));
    }
}

proof fn lemma_lists_drop_last(keys: Seq<Seq<char>>, set: Set<Seq<char>>)
    requires
        lists(keys, set),
        keys.len() > 0,
    ensures
        lists(keys.drop_last(), set.remove(keys.last())),
{
    let rest = keys.drop_last();
    let less = set.remove(keys.last());
    assert forall|k: Seq<char>| #[trigger] less.contains(k) <==> rest.contains(k) by {
        if less.contains(k) {
            let i = keys.index_of(k);
            assert(keys[i] == k);
            assert(rest[i] == k);
        }
        if rest.contains(k) {
            let i = rest.index_of(k);
            assert(keys[i] == k);
            assert(keys.contains(k));
            assert(text_less(keys[i], keys[keys.len() - 1]));
            lemma_text_irreflexive(k);
        }
    }
    assert forall|i: int, j: int| 0 <= i < j < rest.len() implies text_less(
        #[trigger] rest[i],
        #[trigger] rest[j],
    ) by {
        assert(text_less(keys[i], keys[j]));
    }
}

/// A part of a set that is listed can be listed.
pub proof fn lemma_lists_part(keys: Seq<Seq<char>>, set: Set<Seq<char>>, part: Set<Seq<char>>)
    requires
        lists(keys, set),
        forall|k: Seq<char>| #[trigger] part.contains(k) ==> set.contains(k),
    ensures
        exists|listed: Seq<Seq<char>>| lists(listed, part),
    decreases keys.len(),
{
    if keys.len() == 0 {
        assert(lists(keys, part));
    } else {
        let last = keys.last();
        lemma_lists_drop_last(keys, set);
        lemma_lists_part(keys.drop_last(), set.remove(last), part.remove(last));
        let listed = choose|listed: Seq<Seq<char>>| lists(listed, part.remove(last));
        if part.contains(last) {
            assert forall|k: Seq<char>| #[trigger] part.remove(last).contains(k) implies text_less(
                k,
                last,
            ) by {
                assert(set.contains(k));
                let i = keys.index_of(k);
                assert(keys[i] == k);
                assert(text_less(keys[i], keys[keys.len() - 1]));
            }
            lemma_lists_push(listed, part.remove(last), last);
            assert(part.remove(last).insert(last) =~= part);
        } else {
            assert(part.remove(last) =~= part);
        }
    }
}

/// A text that comes after all that are listed is listed behind them.
pub proof fn lemma_lists_push(keys: Seq<Seq<char>>, set: Set<Seq<char>>, key: Seq<char>)
    requires
        lists(keys, set),
        forall|k: Seq<char>| #[trigger] set.contains(k) ==> text_less(k, key),
    ensures
        lists(keys.push(key), set.insert(key)),
{
    let longer = keys.push(key);
    assert forall|i: int, j: int| 0 <= i < j < longer.len() implies text_less(
        #[trigger] longer[i],
        #[trigger] longer[j],
    ) by {
        assert(keys.contains(keys[i]));
        assert(set.contains(keys[i]));
        if j < keys.len() {
            assert(text_less(keys[i], keys[j]));
        }
    }
    assert forall|k: Seq<char>| #[trigger] set.insert(key).contains(k) <==> longer.contains(k) by {
        if set.contains(k) {
            let i = keys.index_of(k);
            assert(keys.contains(k));
            assert(longer[i] == k);
        }
        if k == key {
            assert(longer[keys.len() as int] == k);
        }
        if longer.contains(k) && k != key {
            let i = longer.index_of(k);
            assert(keys[i] == k);
            assert(keys.contains(k));
        }
    }
}

/// The keys whose mark is true.
pub open spec fn marked(keys: Seq<Seq<char>>, marks: Seq<bool>) -> Set<Seq<char>> {
    Set::new(|k: Seq<char>| exists|i: int| 0 <= i < keys.len() && keys[i] == k && marks[i])
}

/// The texts that are not a key from `start` on whose mark is false.
spec fn unmarked_from(keys: Seq<Seq<char>>, marks: Seq<bool>, start: int) -> Set<Seq<char>> {
    Set::new(
        |k: Seq<char>| forall|i: int| start <= i < keys.len() && #[trigger] keys[i] == k ==> marks[i],
    )
}

} // verus!
