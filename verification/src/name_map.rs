//! A map keyed by name that keeps its entries in the order in which the names
//! were first seen.
//!
//! Entries live in two parallel vectors; a hash index finds the position of a
//! name in constant time. Iteration by position is therefore reproducible.

use vstd::prelude::*;
use vstd::hash_map::StringHashMap;

verus! {

/// An insertion-ordered map from names to values of type `V`.
pub struct NameMap<V> {
    index: StringHashMap<usize>,
    keys: Vec<String>,
    values: Vec<V>,
}

impl<V> NameMap<V> {
    /// The names of the entries, in insertion order.
    pub closed spec fn names(&self) -> Seq<Seq<char>> {
        Seq::new(self.keys@.len(), |i: int| self.keys@[i]@)
    }

    /// The values of the entries, in insertion order.
    pub closed spec fn values(&self) -> Seq<V> {
        self.values@
    }

    /// The hash index agrees with the vector of names.
    pub closed spec fn indexed(&self) -> bool {
        &&& forall|name: Seq<char>| #[trigger]
            self.index@.contains_key(name) ==> self.index@[name] < self.keys@.len()
                && self.keys@[self.index@[name] as int]@ == name
        &&& forall|i: int|
            0 <= i < self.keys@.len() ==> self.index@.contains_key(#[trigger] self.keys@[i]@)
                && self.index@[self.keys@[i]@] == i
    }

    /// Well-formedness: every name has one value and occurs once.
    pub open spec fn wf(&self) -> bool {
        &&& self.indexed()
        &&& self.names().len() == self.values().len()
        &&& self.names().no_duplicates()
    }

    /// Whether `name` has an entry.
    pub open spec fn contains(&self, name: Seq<char>) -> bool {
        self.names().contains(name)
    }

    /// The set of names that have an entry.
    pub open spec fn dom(&self) -> Set<Seq<char>> {
        self.names().to_set()
    }

    /// The position of the entry of `name`, meaningful where `contains(name)`.
    pub open spec fn position(&self, name: Seq<char>) -> int {
        self.names().index_of(name)
    }

    /// The value stored under `name`, meaningful where `contains(name)`.
    pub open spec fn get(&self, name: Seq<char>) -> V {
        self.values()[self.position(name)]
    }

    /// The entries as a mathematical map, which forgets their order.
    pub open spec fn map(&self) -> Map<Seq<char>, V> {
        Map::new(|name: Seq<char>| self.contains(name), |name: Seq<char>| self.get(name))
    }

    /// In a well-formed map the position of a name is the only place where it
    /// stands.
    pub proof fn lemma_position(&self, i: int)
        requires
            self.wf(),
            0 <= i < self.names().len(),
        ensures
            self.contains(self.names()[i]),
            self.position(self.names()[i]) == i,
            self.get(self.names()[i]) == self.values()[i],
    {
    }

    /// Makes an empty map.
    pub fn new() -> (map: Self)
        ensures
            map.wf(),
            map.names() == Seq::<Seq<char>>::empty(),
            map.values() == Seq::<V>::empty(),
    {
        NameMap { index: StringHashMap::new(), keys: Vec::new(), values: Vec::new() }
    }

    /// The number of entries.
    pub fn len(&self) -> (n: usize)
        ensures
            n == self.names().len(),
    {
        self.keys.len()
    }

    /// Finds the position of the entry of `name`.
    pub fn find(&self, name: &str) -> (found: Option<usize>)
        requires
            self.wf(),
        ensures
            match found {
                Some(i) => i < self.names().len() && self.names()[i as int] == name@
                    && self.contains(name@) && self.position(name@) == i,
                None => !self.contains(name@),
            },
    {
        match self.index.get(name) {
            Some(i) => {
                proof {
                    self.lemma_position(*i as int);
                }
                Some(*i)
            },
            None => None,
        }
    }

    /// The name of the entry at position `i`.
    pub fn name(&self, i: usize) -> (name: &str)
        requires
            i < self.names().len(),
        ensures
            name@ == self.names()[i as int],
    {
        self.keys[i].as_str()
    }

    /// The value of the entry at position `i`.
    pub fn value(&self, i: usize) -> (value: &V)
        requires
            i < self.values().len(),
        ensures
            *value == self.values()[i as int],
    {
        &self.values[i]
    }

    /// The value of the entry at position `i`, for changing it in place.
    pub fn value_mut(&mut self, i: usize) -> (value: &mut V)
        requires
            i < old(self).values().len(),
        ensures
            *value == old(self).values()[i as int],
            final(self).names() == old(self).names(),
            final(self).values() == old(self).values().update(i as int, *final(value)),
            old(self).wf() ==> final(self).wf(),
    {
        &mut self.values[i]
    }

    /// Appends an entry for a name that has none yet.
    pub fn push(&mut self, name: String, value: V)
        requires
            old(self).wf(),
            !old(self).contains(name@),
        ensures
            final(self).wf(),
            final(self).names() == old(self).names().push(name@),
            final(self).values() == old(self).values().push(value),
            final(self).map() == old(self).map().insert(name@, value),
    {
        let at: usize = self.keys.len();
        self.index.insert(name.clone(), at);
        self.keys.push(name);
        self.values.push(value);
        proof {
            assert(final(self).names() =~= old(self).names().push(name@));
            assert forall|i: int| 0 <= i < self.keys@.len() implies self.index@.contains_key(
                #[trigger] self.keys@[i]@,
            ) && self.index@[self.keys@[i]@] == i by {
                if i < at {
                    assert(old(self).names()[i] == old(self).keys@[i]@);
                }
            }
            Self::lemma_map_after_push(*old(self), *self, name@, value);
        }
    }

    /// Puts `value` in place of the value at position `i`.
    pub fn set(&mut self, i: usize, value: V)
        requires
            old(self).wf(),
            i < old(self).names().len(),
        ensures
            final(self).wf(),
            final(self).names() == old(self).names(),
            final(self).values() == old(self).values().update(i as int, value),
            final(self).map() == old(self).map().insert(old(self).names()[i as int], value),
    {
        let slot = self.value_mut(i);
        *slot = value;
    }

    /// Stores `value` under `name`: in place of the value that the name had, or
    /// as a new last entry. Returns the position of the entry.
    pub fn insert(&mut self, name: &str, value: V) -> (at: usize)
        requires
            old(self).wf(),
        ensures
            final(self).wf(),
            final(self).map() == old(self).map().insert(name@, value),
            final(self).names() == if old(self).contains(name@) {
                old(self).names()
            } else {
                old(self).names().push(name@)
            },
            at < final(self).names().len(),
            final(self).names()[at as int] == name@,
            final(self).values() == if old(self).contains(name@) {
                old(self).values().update(at as int, value)
            } else {
                old(self).values().push(value)
            },
    {
        match self.find(name) {
            Some(at) => {
                self.set(at, value);
                at
            },
            None => {
                let at: usize = self.keys.len();
                self.push(name.to_owned(), value);
                at
            },
        }
    }

    /// Appending an entry inserts it into the mathematical map.
    pub proof fn lemma_map_after_push(before: Self, after: Self, name: Seq<char>, value: V)
        requires
            before.wf(),
            !before.contains(name),
            after.names() == before.names().push(name),
            after.values() == before.values().push(value),
        ensures
            after.map() == before.map().insert(name, value),
    {
        let at = before.names().len() as int;
        assert(after.names()[at] == name);
        assert forall|n: Seq<char>| after.contains(n) <==> (n == name || before.contains(n)) by {
            if before.contains(n) {
                let j = before.names().index_of(n);
                assert(after.names()[j] == n);
            }
        }
    }
}

} // verus!
