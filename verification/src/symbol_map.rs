//! A map from trading symbols to values, kept in order of first insertion.
use vstd::prelude::*;

verus! {

/// Values keyed by symbol. A key is looked up by its characters.
#[derive(Debug)]
pub struct SymbolMap<V> {
    entries: Vec<(String, V)>,
}

impl<V> SymbolMap<V> {
    /// The entries, in order of first insertion.
    pub closed spec fn entries(&self) -> Seq<(String, V)> {
        self.entries@
    }

    /// No symbol stands in two entries.
    pub open spec fn distinct(&self) -> bool {
        forall|i: int, j: int|
            #![trigger self.entries()[i], self.entries()[j]]
            0 <= i < j < self.entries().len() ==> self.entries()[i].0@ != self.entries()[j].0@
    }
}

/// Entry `i` is the first one for `key`.
pub open spec fn is_first<V>(entries: Seq<(String, V)>, key: Seq<char>, i: int) -> bool {
    &&& 0 <= i < entries.len()
    &&& entries[i].0@ == key
    &&& forall|j: int| 0 <= j < i ==> (#[trigger] entries[j]).0@ != key
}

/// Some entry is for `key`.
pub open spec fn has_key<V>(entries: Seq<(String, V)>, key: Seq<char>) -> bool {
    exists|i: int| is_first(entries, key, i)
}

/// Where the first entry for `key` stands.
pub open spec fn first_of<V>(entries: Seq<(String, V)>, key: Seq<char>) -> int {
    choose|i: int| is_first(entries, key, i)
}

/// The entries with a value set: in place where the key has an entry, and else at the end.
pub open spec fn placed<V>(entries: Seq<(String, V)>, key: String, value: V) -> Seq<(String, V)> {
    if has_key(entries, key@) {
        entries.update(first_of(entries, key@), (key, value))
    } else {
        entries.push((key, value))
    }
}

/// The entries without the first one for a key; the others keep their order.
pub open spec fn taken_out<V>(entries: Seq<(String, V)>, key: Seq<char>) -> Seq<(String, V)> {
    if has_key(entries, key) {
        entries.remove(first_of(entries, key))
    } else {
        entries
    }
}

/// The map that a list of entries stands for: each key goes to its first entry's value.
pub open spec fn as_map<V>(entries: Seq<(String, V)>) -> Map<Seq<char>, V> {
    Map::new(
        |key: Seq<char>| has_key(entries, key),
        |key: Seq<char>| entries[choose|i: int| is_first(entries, key, i)].1,
    )
}

impl<V> View for SymbolMap<V> {
    type V = Map<Seq<char>, V>;

    open spec fn view(&self) -> Map<Seq<char>, V> {
        as_map(self.entries())
    }
}

proof fn lemma_first_is_unique<V>(entries: Seq<(String, V)>, key: Seq<char>, i: int)
    requires
        is_first(entries, key, i),
    ensures
        first_of(entries, key) == i,
        as_map(entries).contains_key(key),
        as_map(entries)[key] == entries[i].1,
{
    assert(has_key(entries, key));
    let k = choose|k: int| is_first(entries, key, k);
    assert(is_first(entries, key, k));
    if k < i {
        assert(entries[k].0@ != key);
    } else if i < k {
        assert(entries[i].0@ != key);
    }
}

proof fn lemma_first_exists<V>(entries: Seq<(String, V)>, key: Seq<char>, i: int)
    requires
        0 <= i < entries.len(),
        entries[i].0@ == key,
    ensures
        has_key(entries, key),
    decreases i,
{
    if exists|j: int| 0 <= j < i && (#[trigger] entries[j]).0@ == key {
        let j = choose|j: int| 0 <= j < i && (#[trigger] entries[j]).0@ == key;
        lemma_first_exists(entries, key, j);
    } else {
        assert(is_first(entries, key, i));
    }
}

/// An entry of a list without repeated symbols is the value of its symbol.
pub proof fn lemma_entry_is_value<V>(map: SymbolMap<V>, i: int)
    requires
        map.distinct(),
        0 <= i < map.entries().len(),
    ensures
        map@.contains_key(map.entries()[i].0@),
        map@[map.entries()[i].0@] == map.entries()[i].1,
{
    let key = map.entries()[i].0@;
    assert(is_first(map.entries(), key, i));
    lemma_first_is_unique(map.entries(), key, i);
}

/// The first entry for every key but `key` stays where it is when `key`'s entry changes.
proof fn lemma_update_first<V>(entries: Seq<(String, V)>, key: Seq<char>, i: int, entry: (String, V))
    requires
        is_first(entries, key, i),
        entry.0@ == key,
    ensures
        as_map(entries.update(i, entry)) == as_map(entries).insert(key, entry.1),
{
    let after = entries.update(i, entry);
    assert forall|k: Seq<char>, j: int| is_first(entries, k, j) <==> is_first(after, k, j) by {
        if is_first(entries, k, j) {
            assert forall|l: int| 0 <= l < j implies (#[trigger] after[l]).0@ != k by {
                assert(entries[l].0@ != k);
            }
        }
        if is_first(after, k, j) {
            assert forall|l: int| 0 <= l < j implies (#[trigger] entries[l]).0@ != k by {
                assert(after[l].0@ != k);
            }
        }
    }
    lemma_first_is_unique(after, key, i);
    lemma_same_firsts(entries, after);
    assert forall|k: Seq<char>| #[trigger] as_map(after).contains_key(k) && k != key implies as_map(
        after,
    )[k] == as_map(entries)[k] by {
        let j = choose|j: int| is_first(after, k, j);
        assert(is_first(entries, k, j));
        lemma_first_is_unique(after, k, j);
        lemma_first_is_unique(entries, k, j);
    }
    lemma_first_is_unique(entries, key, i);
    assert(as_map(after) =~= as_map(entries).insert(key, entry.1));
}

proof fn lemma_same_firsts<V>(a: Seq<(String, V)>, b: Seq<(String, V)>)
    requires
        forall|k: Seq<char>, j: int| is_first(a, k, j) <==> is_first(b, k, j),
    ensures
        forall|k: Seq<char>| has_key(a, k) <==> has_key(b, k),
{
    assert forall|k: Seq<char>| has_key(a, k) <==> has_key(b, k) by {
        if has_key(a, k) {
            assert(is_first(b, k, choose|j: int| is_first(a, k, j)));
        }
        if has_key(b, k) {
            assert(is_first(a, k, choose|j: int| is_first(b, k, j)));
        }
    }
}

proof fn lemma_push_new<V>(entries: Seq<(String, V)>, entry: (String, V))
    requires
        !has_key(entries, entry.0@),
    ensures
        as_map(entries.push(entry)) == as_map(entries).insert(entry.0@, entry.1),
{
    let after = entries.push(entry);
    let n = entries.len() as int;
    assert forall|j: int| 0 <= j < n implies (#[trigger] entries[j]).0@ != entry.0@ by {
        if entries[j].0@ == entry.0@ {
            lemma_first_exists(entries, entry.0@, j);
        }
    }
    assert forall|j: int| 0 <= j < n implies (#[trigger] after[j]).0@ != entry.0@ by {
        assert(entries[j].0@ != entry.0@);
    }
    assert(is_first(after, entry.0@, n));
    lemma_first_is_unique(after, entry.0@, n);
    assert forall|k: Seq<char>|
        #![trigger has_key(after, k)]
        #![trigger has_key(entries, k)]
        #![trigger as_map(after)[k]]
        k != entry.0@ implies has_key(after, k) == has_key(entries, k) && (has_key(entries, k)
        ==> as_map(after)[k] == as_map(entries)[k]) by {
        if has_key(entries, k) {
            let j = choose|j: int| is_first(entries, k, j);
            assert forall|l: int| 0 <= l < j implies (#[trigger] after[l]).0@ != k by {
                assert(entries[l].0@ != k);
            }
            assert(is_first(after, k, j));
            lemma_first_is_unique(after, k, j);
            lemma_first_is_unique(entries, k, j);
        }
        if has_key(after, k) {
            let j = choose|j: int| is_first(after, k, j);
            assert(j < n);
            assert forall|l: int| 0 <= l < j implies (#[trigger] entries[l]).0@ != k by {
                assert(after[l].0@ != k);
            }
            assert(is_first(entries, k, j));
        }
    }
    assert(as_map(after) =~= as_map(entries).insert(entry.0@, entry.1));
}

/// Taking out the only entry for `key` takes `key` out of the map.
proof fn lemma_remove_only<V>(entries: Seq<(String, V)>, key: Seq<char>, i: int)
    requires
        is_first(entries, key, i),
        forall|j: int| i < j < entries.len() ==> (#[trigger] entries[j]).0@ != key,
    ensures
        as_map(entries.remove(i)) == as_map(entries).remove(key),
{
    let after = entries.remove(i);
    assert forall|k: Seq<char>|
        #![trigger has_key(after, k)]
        #![trigger has_key(entries, k)]
        #![trigger as_map(after)[k]]
        has_key(after, k) == (k != key && has_key(entries, k)) && (has_key(after, k) ==> as_map(
            after,
        )[k] == as_map(entries)[k]) by {
        if has_key(after, k) {
            let j = choose|j: int| is_first(after, k, j);
            let o = if j < i {
                j
            } else {
                j + 1
            };
            assert(entries[o].0@ == k);
            assert(k != key);
            assert forall|l: int| 0 <= l < o implies (#[trigger] entries[l]).0@ != k by {
                if l < i {
                    assert(after[l].0@ != k);
                } else if l > i {
                    assert(after[l - 1].0@ != k);
                }
            }
            assert(is_first(entries, k, o));
            lemma_first_is_unique(after, k, j);
            lemma_first_is_unique(entries, k, o);
        }
        if k != key && has_key(entries, k) {
            let o = choose|o: int| is_first(entries, k, o);
            let j = if o < i {
                o
            } else {
                o - 1
            };
            assert(after[j].0@ == k);
            lemma_first_exists(after, k, j);
        }
    }
    assert(as_map(after) =~= as_map(entries).remove(key));
}

impl<V> SymbolMap<V> {
    pub fn new() -> (r: SymbolMap<V>)
        ensures
            r@ == Map::<Seq<char>, V>::empty(),
            r.entries() == Seq::<(String, V)>::empty(),
            r.distinct(),
    {
        let r = SymbolMap { entries: Vec::new() };
        assert(r@ =~= Map::<Seq<char>, V>::empty());
        r
    }

    /// Index of the first entry for `key`, or the number of entries.
    fn find(&self, key: &str) -> (r: usize)
        ensures
            r <= self.entries().len(),
            r < self.entries().len() ==> is_first(self.entries(), key@, r as int),
            r == self.entries().len() ==> !self@.contains_key(key@),
    {
        let wanted: String = key.to_owned();
        let mut i: usize = 0;
        while i < self.entries.len()
            invariant
                i <= self.entries@.len(),
                wanted@ == key@,
                forall|j: int| 0 <= j < i ==> (#[trigger] self.entries@[j]).0@ != key@,
            decreases self.entries.len() - i,
        {
            if self.entries[i].0 == wanted {
                return i;
            }
            i = i + 1;
        }
        i
    }

    pub fn get(&self, key: &str) -> (r: Option<&V>)
        ensures
            r is Some <==> self@.contains_key(key@),
            r is Some ==> *r->0 == self@[key@],
    {
        let i = self.find(key);
        if i < self.entries.len() {
            proof {
                lemma_first_is_unique(self.entries(), key@, i as int);
            }
            Some(&self.entries[i].1)
        } else {
            None
        }
    }

    pub fn contains_key(&self, key: &str) -> (r: bool)
        ensures
            r == self@.contains_key(key@),
    {
        let i = self.find(key);
        proof {
            if i < self.entries@.len() {
                lemma_first_is_unique(self.entries(), key@, i as int);
            }
        }
        i < self.entries.len()
    }

    pub fn get_mut(&mut self, key: &str) -> (r: Option<&mut V>)
        ensures
            r is Some <==> old(self)@.contains_key(key@),
            match r {
                Some(value) => {
                    &&& *value == old(self)@[key@]
                    &&& final(self)@ == old(self)@.insert(key@, *final(value))
                    &&& final(self).entries() == old(self).entries().update(
                        first_of(old(self).entries(), key@),
                        (old(self).entries()[first_of(old(self).entries(), key@)].0, *final(value)),
                    )
                    &&& old(self).distinct() ==> final(self).distinct()
                },
                None => *final(self) == *old(self),
            },
    {
        let i = self.find(key);
        if i < self.entries.len() {
            proof {
                let before = self.entries();
                lemma_first_is_unique(before, key@, i as int);
                assert forall|entry: (String, V)|
                    #![trigger before.update(i as int, entry)]
                    entry.0 == before[i as int].0 implies as_map(before.update(i as int, entry))
                    == as_map(before).insert(key@, entry.1) by {
                    lemma_update_first(before, key@, i as int, entry);
                }
            }
            Some(&mut self.entries[i].1)
        } else {
            None
        }
    }

    /// Sets the value of `key`; a new key goes last.
    pub fn insert(&mut self, key: String, value: V)
        ensures
            final(self)@ == old(self)@.insert(key@, value),
            final(self).entries() == placed(old(self).entries(), key, value),
            old(self).distinct() ==> final(self).distinct(),
    {
        let i = self.find(key.as_str());
        let ghost before = self.entries();
        if i < self.entries.len() {
            proof {
                lemma_first_is_unique(before, key@, i as int);
                lemma_update_first(before, key@, i as int, (key, value));
            }
            self.entries.set(i, (key, value));
            assert(self.entries() == before.update(i as int, (key, value)));
        } else {
            proof {
                lemma_push_new(before, (key, value));
                if old(self).distinct() {
                    assert forall|j: int| 0 <= j < before.len() implies (#[trigger] before[j]).0@
                        != key@ by {
                        if before[j].0@ == key@ {
                            lemma_first_exists(before, key@, j);
                        }
                    }
                }
            }
            self.entries.push((key, value));
            assert(self.entries() == before.push((key, value)));
        }
    }

    /// Takes `key` and its value out.
    pub fn remove(&mut self, key: &str)
        requires
            old(self).distinct(),
        ensures
            final(self)@ == old(self)@.remove(key@),
            final(self).entries() == taken_out(old(self).entries(), key@),
            final(self).distinct(),
    {
        let i = self.find(key);
        let ghost before = self.entries();
        if i < self.entries.len() {
            proof {
                lemma_first_is_unique(before, key@, i as int);
                lemma_remove_only(before, key@, i as int);
            }
            let _ = self.entries.remove(i);
            assert(self.entries() == before.remove(i as int));
        } else {
            assert(self@ =~= old(self)@.remove(key@));
        }
    }

    /// Number of keys.
    pub fn len(&self) -> (r: usize)
        ensures
            r == self.entries().len(),
    {
        self.entries.len()
    }

    /// The symbol of entry `i`.
    pub fn key_at(&self, i: usize) -> (r: &str)
        requires
            i < self.entries().len(),
        ensures
            r@ == self.entries()[i as int].0@,
    {
        self.entries[i].0.as_str()
    }

    /// The value of entry `i`.
    pub fn value_at(&self, i: usize) -> (r: &V)
        requires
            i < self.entries().len(),
        ensures
            *r == self.entries()[i as int].1,
    {
        &self.entries[i].1
    }
}

impl<V: Copy> Clone for SymbolMap<V> {
    fn clone(&self) -> (r: SymbolMap<V>)
        ensures
            r.entries() == self.entries(),
            r@ == self@,
    {
        let mut entries: Vec<(String, V)> = Vec::new();
        let mut i: usize = 0;
        while i < self.entries.len()
            invariant
                i <= self.entries@.len(),
                entries@ == self.entries@.take(i as int),
            decreases self.entries.len() - i,
        {
            let key: String = self.entries[i].0.clone();
            let value: V = self.entries[i].1;
            entries.push((key, value));
            i = i + 1;
            assert(entries@ =~= self.entries@.take(i as int));
        }
        assert(entries@ =~= self.entries@);
        SymbolMap { entries }
    }
}

impl<V> Default for SymbolMap<V> {
    fn default() -> (r: SymbolMap<V>)
        ensures
            r@ == Map::<Seq<char>, V>::empty(),
            r.entries() == Seq::<(String, V)>::empty(),
            r.distinct(),
    {
        SymbolMap::new()
    }
}

} // verus!
