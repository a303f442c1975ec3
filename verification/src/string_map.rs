//! An insertion-ordered map keyed by strings.
use vstd::prelude::*;

verus! {

/// A map from strings to values that remembers the order in which its keys
/// arrived.
///
/// The entries are held in a vector; `wf` says that no key occurs twice.
#[derive(Debug)]
pub struct StringMap<V> {
    entries: Vec<(String, V)>,
}

impl<V> StringMap<V> {
    /// The keys, oldest first.
    pub closed spec fn keys(&self) -> Seq<Seq<char>> {
        self.entries@.map_values(|e: (String, V)| e.0@)
    }

    /// The values, in the order of their keys.
    pub closed spec fn values(&self) -> Seq<V> {
        self.entries@.map_values(|e: (String, V)| e.1)
    }

    /// The position of the first entry under `key`.
    pub open spec fn position(&self, key: Seq<char>) -> int {
        self.keys().index_of_first(key).unwrap()
    }

    /// The map from each key to the value of its first entry.
    pub open spec fn view(&self) -> Map<Seq<char>, V> {
        Map::new(
            |k: Seq<char>| self.keys().contains(k),
            |k: Seq<char>| self.values()[self.position(k)],
        )
    }

    /// No key occurs twice.
    pub open spec fn wf(&self) -> bool {
        self.keys().no_duplicates()
    }

    /// There are as many values as keys, and a key's position is that of
    /// its first entry.
    pub proof fn lemma_position(&self, key: Seq<char>)
        ensures
            self.keys().len() == self.values().len(),
            self.keys().contains(key) ==> 0 <= self.position(key) < self.keys().len()
                && self.keys()[self.position(key)] == key,
            forall|i: int|
                0 <= i < self.keys().len() && self.keys()[i] == key ==> self.position(key) <= i,
    {
        self.keys().index_of_first_ensures(key);
    }

    /// In a well-formed map each key stands at its own position.
    pub proof fn lemma_entry(&self, i: int)
        requires
            self.wf(),
            0 <= i < self.keys().len(),
        ensures
            self@.contains_key(self.keys()[i]),
            self@[self.keys()[i]] == self.values()[i],
    {
        self.lemma_position(self.keys()[i]);
    }

    /// A value of the map is smaller than the map, for recursion over
    /// values that hold maps of their own kind.
    pub proof fn lemma_value_decreases(self, key: Seq<char>)
        requires
            self@.contains_key(key),
        ensures
            decreases_to!(self => self@[key]),
    {
        broadcast use vstd::std_specs::vec::group_vec_axioms;
        self.lemma_position(key);
        let i = self.position(key);
        assert(self@[key] == self.entries@[i].1);
        assert(decreases_to!(self.entries => self.entries@[i]));
    }

    pub fn new() -> (m: Self)
        ensures
            m.wf(),
            m.keys() == Seq::<Seq<char>>::empty(),
            m@ == Map::<Seq<char>, V>::empty(),
    {
        let m = StringMap { entries: Vec::new() };
        assert(m.keys() =~= Seq::<Seq<char>>::empty());
        assert(m@ =~= Map::<Seq<char>, V>::empty());
        m
    }

    pub fn len(&self) -> (n: usize)
        ensures
            n == self.keys().len(),
    {
        self.entries.len()
    }

    /// The key at position `i` of the insertion order.
    pub fn key_at(&self, i: usize) -> (key: &String)
        requires
            i < self.keys().len(),
        ensures
            key@ == self.keys()[i as int],
    {
        &self.entries[i].0
    }

    /// The value at position `i` of the insertion order.
    pub fn value_at(&self, i: usize) -> (value: &V)
        requires
            i < self.keys().len(),
        ensures
            *value == self.values()[i as int],
    {
        &self.entries[i].1
    }

    /// The position of the first entry under `key`, if there is one.
    pub fn find(&self, key: &String) -> (at: Option<usize>)
        ensures
            at is Some <==> self@.contains_key(key@),
            at is Some ==> at->0 == self.position(key@) && at->0 < self.keys().len(),
    {
        let mut i: usize = 0;
        while i < self.entries.len()
            invariant
                i <= self.entries@.len(),
                forall|j: int| 0 <= j < i ==> self.keys()[j] != key@,
            decreases self.entries@.len() - i,
        {
            if self.entries[i].0 == *key {
                proof {
                    self.lemma_position(key@);
                    assert(self.keys()[i as int] == key@);
                }
                return Some(i);
            }
            i += 1;
        }
        None
    }

    pub fn contains_key(&self, key: &String) -> (found: bool)
        ensures
            found == self@.contains_key(key@),
    {
        self.find(key).is_some()
    }

    pub fn get(&self, key: &String) -> (value: Option<&V>)
        ensures
            value is Some <==> self@.contains_key(key@),
            value is Some ==> *value->0 == self@[key@],
    {
        match self.find(key) {
            Some(i) => Some(&self.entries[i].1),
            None => None,
        }
    }

    /// The value under a key that the map holds.
    pub fn at(&self, key: &String) -> (value: &V)
        requires
            self@.contains_key(key@),
        ensures
            *value == self@[key@],
    {
        let mut i: usize = 0;
        loop
            invariant
                i <= self.entries@.len(),
                self@.contains_key(key@),
                forall|j: int| 0 <= j < i ==> self.keys()[j] != key@,
            decreases self.entries@.len() - i,
        {
            proof {
                self.lemma_position(key@);
                assert(self.keys()[self.position(key@)] == key@);
            }
            if self.entries[i].0 == *key {
                assert(self.keys()[i as int] == key@);
                return &self.entries[i].1;
            }
            assert(i < self.entries.len());
            i += 1;
        }
    }

    /// Puts `value` under `key`: in place of the value that stood there, which
    /// is handed back, or else as the newest entry.
    pub fn insert(&mut self, key: String, value: V) -> (previous: Option<V>)
        ensures
            final(self)@ == old(self)@.insert(key@, value),
            final(self).keys() == if old(self)@.contains_key(key@) {
                old(self).keys()
            } else {
                old(self).keys().push(key@)
            },
            previous == if old(self)@.contains_key(key@) {
                Some(old(self)@[key@])
            } else {
                None::<V>
            },
            old(self).wf() ==> final(self).wf(),
    {
        let ghost keys = self.keys();
        let ghost values = self.values();
        let ghost before = self@;
        match self.find(&key) {
            Some(i) => {
                let mut previous = value;
                std::mem::swap(&mut self.entries[i].1, &mut previous);
                proof {
                    assert(self.keys() =~= keys);
                    assert(self.values() =~= values.update(i as int, value));
                    assert(self@ =~= before.insert(key@, value)) by {
                        assert forall|k: Seq<char>| keys.contains(k) implies self@[k]
                            == before.insert(key@, value)[k] by {
                            old(self).lemma_position(k);
                            old(self).lemma_position(key@);
                        }
                    }
                }
                Some(previous)
            },
            None => {
                self.entries.push((key, value));
                proof {
                    assert(self.keys() =~= keys.push(key@));
                    assert(self.values() =~= values.push(value));
                    assert(self.keys()[keys.len() as int] == key@);
                    assert forall|k: Seq<char>| keys.contains(k) implies self.keys().contains(k) by {
                        let j = choose|j: int| 0 <= j < keys.len() && keys[j] == k;
                        assert(self.keys()[j] == k);
                    }
                    assert forall|k: Seq<char>| self.keys().contains(k) implies self@[k]
                        == before.insert(key@, value)[k] by {
                        self.lemma_position(k);
                        old(self).lemma_position(k);
                        if k != key@ {
                            let p = self.position(k);
                            assert(keys[p] == k);
                            let q = old(self).position(k);
                            assert(self.keys()[q] == k);
                        }
                    }
                    assert(self@ =~= before.insert(key@, value));
                }
                None
            },
        }
    }
}

impl StringMap<crate::string_set::StringSet> {
    /// The members of `group`, oldest first; none where the map has no such
    /// group.
    pub open spec fn members(&self, group: Seq<char>) -> Seq<Seq<char>> {
        if self@.contains_key(group) {
            self@[group].order()
        } else {
            Seq::empty()
        }
    }

    /// Every set in the map is well formed.
    pub open spec fn sets_wf(&self) -> bool {
        forall|g: Seq<char>| self@.contains_key(g) ==> (#[trigger] self@[g]).wf()
    }

    /// Makes `member` a member of `group`, creating the group if need be.
    pub fn add_member(&mut self, group: &String, member: String)
        ensures
            final(self).keys() == if old(self)@.contains_key(group@) {
                old(self).keys()
            } else {
                old(self).keys().push(group@)
            },
            final(self)@.dom() == old(self)@.dom().insert(group@),
            final(self).members(group@) == if old(self).members(group@).contains(member@) {
                old(self).members(group@)
            } else {
                old(self).members(group@).push(member@)
            },
            forall|g: Seq<char>| g != group@ && old(self)@.contains_key(g) ==> final(self)@[g] == old(self)@[g],
            old(self).wf() ==> final(self).wf(),
            old(self).sets_wf() ==> final(self).sets_wf(),
    {
        let ghost keys = self.keys();
        let ghost values = self.values();
        let ghost before = self@;
        match self.find(group) {
            Some(i) => {
                proof { self.lemma_position(group@); }
                self.entries[i].1.insert(member);
                proof {
                    assert(self.keys() =~= keys);
                    assert(self.values() =~= values.update(i as int, self.values()[i as int]));
                    assert forall|k: Seq<char>| keys.contains(k) implies self@[k] == if k == group@ { self.values()[i as int] } else { before[k] } by {
                        self.lemma_position(k);
                        old(self).lemma_position(k);
                    }
                    assert(self@.dom() =~= before.dom().insert(group@));
                }
            },
            None => {
                let mut set = crate::string_set::StringSet::new();
                set.insert(member);
                let key = group.clone();
                self.insert(key, set);
                proof {
                    assert(self@.dom() =~= before.dom().insert(group@));
                }
            },
        }
    }
}

} // verus!
