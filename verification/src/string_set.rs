//! An insertion-ordered set of strings.
use vstd::prelude::*;

verus! {

/// A set of strings that remembers the order in which its members arrived.
///
/// The members are held in a vector; `wf` says that none occurs twice.
#[derive(Debug)]
pub struct StringSet {
    items: Vec<String>,
}

impl StringSet {
    /// The members, oldest first.
    pub closed spec fn order(&self) -> Seq<Seq<char>> {
        self.items@.map_values(|s: String| s@)
    }

    /// The members as a mathematical set.
    pub open spec fn view(&self) -> Set<Seq<char>> {
        self.order().to_set()
    }

    /// No member occurs twice.
    pub open spec fn wf(&self) -> bool {
        self.order().no_duplicates()
    }

    pub fn new() -> (s: Self)
        ensures
            s.wf(),
            s.order() == Seq::<Seq<char>>::empty(),
    {
        let s = StringSet { items: Vec::new() };
        assert(s.order() =~= Seq::<Seq<char>>::empty());
        s
    }

    pub fn len(&self) -> (n: usize)
        ensures
            n == self.order().len(),
    {
        self.items.len()
    }

    /// The member at position `i` of the insertion order.
    pub fn nth(&self, i: usize) -> (key: &String)
        requires
            i < self.order().len(),
        ensures
            key@ == self.order()[i as int],
    {
        &self.items[i]
    }

    pub fn contains(&self, key: &String) -> (found: bool)
        ensures
            found == self@.contains(key@),
    {
        let mut i: usize = 0;
        while i < self.items.len()
            invariant
                i <= self.items@.len(),
                forall|j: int| 0 <= j < i ==> self.order()[j] != key@,
            decreases self.items@.len() - i,
        {
            if self.items[i] == *key {
                assert(self.order()[i as int] == key@);
                return true;
            }
            i += 1;
        }
        false
    }

    /// Adds `key` unless it is already a member; says whether it was added.
    pub fn insert(&mut self, key: String) -> (fresh: bool)
        ensures
            fresh == !old(self)@.contains(key@),
            final(self).order() == if fresh {
                old(self).order().push(key@)
            } else {
                old(self).order()
            },
            final(self)@ == old(self)@.insert(key@),
            old(self).wf() ==> final(self).wf(),
    {
        if self.contains(&key) {
            assert(self@ =~= self@.insert(key@));
            false
        } else {
            let ghost before = self.order();
            self.items.push(key);
            assert(self.order() =~= before.push(key@));
            assert(self@ =~= before.to_set().insert(key@)) by {
                assert forall|k: Seq<char>| self@.contains(k) <==> before.to_set().insert(
                    key@,
                ).contains(k) by {
                    if before.contains(k) {
                        let j = choose|j: int| 0 <= j < before.len() && before[j] == k;
                        assert(self.order()[j] == k);
                    }
                    if k == key@ {
                        assert(self.order()[before.len() as int] == k);
                    }
                }
            }
            true
        }
    }
}

} // verus!
