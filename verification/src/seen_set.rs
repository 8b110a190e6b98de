//! The record of the values a node has seen.

use std::collections::HashSet;
use vstd::prelude::*;

verus! {

broadcast use vstd::std_specs::hash::group_hash_axioms;

/// A set of values that remembers the order in which they came. It only
/// grows. A hash set answers membership; a list keeps the order, so that
/// what is read back or replayed does not depend on hashing.
pub struct SeenSet {
    members: HashSet<u64>,
    order: Vec<u64>,
}

impl View for SeenSet {
    type V = Seq<u64>;

    /// The values, in the order of their first insertion.
    closed spec fn view(&self) -> Seq<u64> {
        self.order@
    }
}

impl SeenSet {
    /// The list and the hash set hold the same values, the list each once.
    pub closed spec fn wf(&self) -> bool {
        &&& self.order@.no_duplicates()
        &&& forall|value: u64| self.members@.contains(value) <==> self.order@.contains(value)
    }

    /// A well-formed set holds no value twice.
    pub proof fn lemma_distinct(&self)
        requires
            self.wf(),
        ensures
            self@.no_duplicates(),
    {
    }

    pub fn new() -> (set: Self)
        ensures
            set.wf(),
            set@ == Seq::<u64>::empty(),
    {
        SeenSet { members: HashSet::new(), order: Vec::new() }
    }

    pub fn len(&self) -> (n: usize)
        ensures
            n == self@.len(),
    {
        self.order.len()
    }

    pub fn contains(&self, value: u64) -> (found: bool)
        requires
            self.wf(),
        ensures
            found == self@.contains(value),
    {
        self.members.contains(&value)
    }

    /// Records `value` and tells whether it is new.
    pub fn insert(&mut self, value: u64) -> (fresh: bool)
        requires
            old(self).wf(),
        ensures
            final(self).wf(),
            fresh == !old(self)@.contains(value),
            final(self)@ == if fresh {
                old(self)@.push(value)
            } else {
                old(self)@
            },
    {
        let fresh = self.members.insert(value);
        if fresh {
            self.order.push(value);
            proof {
                let before = old(self).order@;
                let after = self.order@;
                assert forall|i: int| 0 <= i < before.len() implies before[i] != value by {
                    if before[i] == value {
                        assert(before.contains(value));
                    }
                }
                assert(after[before.len() as int] == value);
                assert forall|v: u64| self.members@.contains(v) <==> after.contains(v) by {
                    if before.contains(v) {
                        let i = choose|i: int| 0 <= i < before.len() && before[i] == v;
                        assert(after[i] == v);
                    }
                    if after.contains(v) && v != value {
                        let i = choose|i: int| 0 <= i < after.len() && after[i] == v;
                        assert(before[i] == v);
                    }
                }
            }
        } else {
            assert(old(self).members@.insert(value) =~= old(self).members@);
        }
        fresh
    }

    /// The values, in the order of their first insertion.
    pub fn values(&self) -> (values: &Vec<u64>)
        ensures
            values@ == self@,
    {
        &self.order
    }
}

} // verus!
