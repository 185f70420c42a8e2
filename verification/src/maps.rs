//! Maps whose values contracts see through their views.
use std::collections::HashMap;
use vstd::hash_map::StringHashMap;
use vstd::prelude::*;

verus! {

broadcast use vstd::std_specs::hash::group_hash_axioms;

/// A map from identifiers.
#[verifier::reject_recursive_types(V)]
pub struct IdMap<V: View> {
    entries: HashMap<u64, V>,
}

impl<V: View> View for IdMap<V> {
    type V = Map<u64, V::V>;

    closed spec fn view(&self) -> Map<u64, V::V> {
        self.entries@.map_values(|value: V| value@)
    }
}

impl<V: View> IdMap<V> {
    /// A map with no entry.
    pub fn new() -> (map: Self)
        ensures
            map@ == Map::<u64, V::V>::empty(),
    {
        let map = IdMap { entries: HashMap::new() };
        assert(map@ =~= Map::<u64, V::V>::empty());
        map
    }

    /// The value of `id`.
    pub fn get(&self, id: u64) -> (value: Option<&V>)
        ensures
            match value {
                Some(value) => self@.contains_key(id) && self@[id] == value@,
                None => !self@.contains_key(id),
            },
    {
        self.entries.get(&id)
    }

    /// Takes the value of `id` out of the map.
    pub fn take(&mut self, id: u64) -> (value: Option<V>)
        ensures
            final(self)@ == old(self)@.remove(id),
            match value {
                Some(value) => old(self)@.contains_key(id) && old(self)@[id] == value@,
                None => !old(self)@.contains_key(id),
            },
    {
        let value = self.entries.remove(&id);
        assert(self@ =~= old(self)@.remove(id));
        value
    }

    /// Gives `id` this value.
    pub fn put(&mut self, id: u64, value: V)
        ensures
            final(self)@ == old(self)@.insert(id, value@),
    {
        self.entries.insert(id, value);
        assert(self@ =~= old(self)@.insert(id, value@));
    }
}

/// A map from names.
#[verifier::reject_recursive_types(V)]
pub struct NameMap<V: View> {
    places: StringHashMap<usize>,
    entries: Vec<(String, V)>,
}

impl<V: View> View for NameMap<V> {
    type V = Map<Seq<char>, V::V>;

    closed spec fn view(&self) -> Map<Seq<char>, V::V> {
        Map::new(
            |name: Seq<char>| self.places@.contains_key(name),
            |name: Seq<char>| self.entries@[self.places@[name] as int].1@,
        )
    }
}

impl<V: View> NameMap<V> {
    /// Each name knows the place of its entry, and each entry is known.
    pub closed spec fn wf(&self) -> bool {
        &&& forall|name: Seq<char>| #[trigger]
            self.places@.contains_key(name) ==> self.places@[name] < self.entries@.len()
                && self.entries@[self.places@[name] as int].0@ == name
        &&& forall|place: int|
            0 <= place < self.entries@.len() ==> self.places@.contains_key(
                (#[trigger] self.entries@[place]).0@,
            ) && self.places@[self.entries@[place].0@] == place
    }

    /// A map with no entry.
    pub fn new() -> (map: Self)
        ensures
            map.wf(),
            map@ == Map::<Seq<char>, V::V>::empty(),
    {
        let map = NameMap { places: StringHashMap::new(), entries: Vec::new() };
        assert(map@ =~= Map::<Seq<char>, V::V>::empty());
        map
    }

    /// The value of `name`.
    pub fn get(&self, name: &str) -> (value: Option<&V>)
        requires
            self.wf(),
        ensures
            match value {
                Some(value) => self@.contains_key(name@) && self@[name@] == value@,
                None => !self@.contains_key(name@),
            },
    {
        match self.places.get(name) {
            Some(place) => Some(&self.entries[*place].1),
            None => None,
        }
    }

    /// Takes the value of `name` out of the map.
    pub fn take(&mut self, name: &str) -> (value: Option<V>)
        requires
            old(self).wf(),
        ensures
            final(self).wf(),
            final(self)@ == old(self)@.remove(name@),
            match value {
                Some(value) => old(self)@.contains_key(name@) && old(self)@[name@] == value@,
                None => !old(self)@.contains_key(name@),
            },
    {
        let place = match self.places.get(name) {
            Some(place) => *place,
            None => {
                assert(self@.remove(name@) =~= self@);
                return None;
            },
        };
        let (_, value) = self.entries.swap_remove(place);
        self.places.remove(name);
        if place < self.entries.len() {
            let moved = self.entries[place].0.clone();
            self.places.insert(moved, place);
        }
        proof {
            let before = old(self).entries@;
            let last = before.len() - 1;
            assert(before[place as int].0@ == name@);
            assert(old(self).places@[before[last].0@] == last);
            assert forall|at: int| 0 <= at < self.entries@.len() implies
                self.places@.contains_key((#[trigger] self.entries@[at]).0@)
                && self.places@[self.entries@[at].0@] == at by {
                if at == place {
                    assert(self.entries@[at] == before[last]);
                } else {
                    assert(self.entries@[at] == before[at]);
                    assert(old(self).places@[before[at].0@] == at);
                }
            }
            assert forall|other: Seq<char>| #[trigger] self.places@.contains_key(other) implies
                self.places@[other] < self.entries@.len()
                && self.entries@[self.places@[other] as int].0@ == other by {
                let at = old(self).places@[other] as int;
                assert(old(self).places@.contains_key(other));
                assert(before[at].0@ == other);
            }
            assert(self@ =~= old(self)@.remove(name@)) by {
                assert forall|other: Seq<char>| #[trigger] self@.contains_key(other) implies
                    self@[other] == old(self)@[other] by {
                    assert(self.places@.contains_key(other));
                    let at = old(self).places@[other] as int;
                    assert(old(self).places@.contains_key(other));
                    assert(before[at].0@ == other);
                }
                assert forall|other: Seq<char>|
                    #![auto]
                    old(self)@.contains_key(other) && other != name@ implies self@.contains_key(
                    other,
                ) by {}
            }
        }
        Some(value)
    }

    /// Gives `name` this value.
    pub fn put(&mut self, name: String, value: V)
        requires
            old(self).wf(),
        ensures
            final(self).wf(),
            final(self)@ == old(self)@.insert(name@, value@),
    {
        let _ = self.take(name.as_str());
        let ghost rest = self@;
        let ghost emptied = *self;
        let place = self.entries.len();
        let known = name.clone();
        self.entries.push((name, value));
        self.places.insert(known, place);
        proof {
            assert(!rest.contains_key(name@));
            assert forall|at: int| 0 <= at < self.entries@.len() implies
                self.places@.contains_key((#[trigger] self.entries@[at]).0@)
                && self.places@[self.entries@[at].0@] == at by {
                if at < place {
                    assert(self.entries@[at] == emptied.entries@[at]);
                    assert(emptied.places@.contains_key(emptied.entries@[at].0@));
                }
            }
        }
        assert(self@ =~= rest.insert(name@, value@));
        assert(rest.insert(name@, value@) =~= old(self)@.insert(name@, value@));
    }
}

} // verus!
