use std::collections::HashSet;
use vstd::prelude::*;
use vstd::std_specs::hash::*;
use vstd::std_specs::iter::IteratorSpec;

verus! {

broadcast use vstd::std_specs::hash::group_hash_axioms;

/// Anything that names a collection of digits to strike from a candidate set.
pub trait Candidate {
    /// The digits that `self` stands for.
    spec fn digits(&self) -> Set<u8>;

    /// The digits of `self` as a list; its order is left to the implementor.
    fn to_candidates(&self) -> (list: Vec<u8>)
        ensures
            list@.to_set() == self.digits(),
    ;
}

impl Candidate for u8 {
    open spec fn digits(&self) -> Set<u8> {
        set![*self]
    }

    fn to_candidates(&self) -> (list: Vec<u8>)
        ensures
            list@ == seq![*self],
    {
        let mut list: Vec<u8> = Vec::new();
        list.push(*self);
        assert(list@ =~= seq![*self]);
        assert(list@.to_set() =~= set![*self]) by {
            assert(list@[0] == *self);
        }
        list
    }
}

impl Candidate for Vec<u8> {
    open spec fn digits(&self) -> Set<u8> {
        self@.to_set()
    }

    fn to_candidates(&self) -> (list: Vec<u8>)
        ensures
            list@ == self@,
    {
        let mut list: Vec<u8> = Vec::new();
        let mut i: usize = 0;
        while i < self.len()
            invariant
                i <= self.len(),
                list@ == self@.subrange(0, i as int),
            decreases self.len() - i,
        {
            list.push(self[i]);
            i += 1;
            assert(list@ =~= self@.subrange(0, i as int));
        }
        assert(list@ =~= self@);
        list
    }
}

impl Candidate for HashSet<u8> {
    open spec fn digits(&self) -> Set<u8> {
        self@
    }

    fn to_candidates(&self) -> (list: Vec<u8>)
        ensures
            list@.no_duplicates(),
    {
        let mut list: Vec<u8> = Vec::new();
        for digit in iter: self.iter()
            invariant
                list@.len() == iter.index(),
                forall|j: int| 0 <= j < list@.len() ==> list@[j] == *iter.seq()[j],
                iter.seq() == spec_hash_keys_iter(self).remaining(),
        {
            list.push(*digit);
        }
        proof {
            let all = spec_hash_keys_iter(self).remaining();
            axiom_spec_hash_keys_iter(self);
            assert(list@ =~= all.unref());
        }
        list
    }
}

} // verus!
