//! Sets of criteria, stored as the bits of one machine word.

use crate::bits::{
    bit_set, lemma_bit_and, lemma_bit_or, lemma_bit_single, lemma_bit_zero, lemma_bits_extensional,
};
use vstd::prelude::*;

verus! {

/// The largest number of criteria that one store can define, built-ins
/// included.
pub const MAX_CRITERIA: usize = 64;

/// A set of criteria indices below [`MAX_CRITERIA`].
#[derive(Clone, Copy, Debug, PartialEq, Eq, Structural)]
pub struct CriteriaSet {
    pub bits: u64,
}

impl View for CriteriaSet {
    type V = Set<int>;

    open spec fn view(&self) -> Set<int> {
        Set::new(|i: int| 0 <= i < 64 && bit_set(self.bits, i as nat))
    }
}

/// Sets with the same members are the same value.
pub proof fn lemma_set_extensional(a: CriteriaSet, b: CriteriaSet)
    requires
        a@ == b@,
    ensures
        a == b,
{
    assert forall|i: nat| i < 64 implies bit_set(a.bits, i) == bit_set(b.bits, i) by {
        let k = i as int;
        assert(k as nat == i);
        assert(a@.contains(k) == bit_set(a.bits, k as nat));
        assert(b@.contains(k) == bit_set(b.bits, k as nat));
    }
    lemma_bits_extensional(a.bits, b.bits);
}

impl CriteriaSet {
    /// The empty set.
    pub fn none() -> (set: CriteriaSet)
        ensures
            set@ == Set::<int>::empty(),
    {
        let set = CriteriaSet { bits: 0 };
        proof {
            assert forall|i: int| !set@.contains(i) by {
                if 0 <= i < 64 {
                    lemma_bit_zero(i as nat);
                }
            }
            assert(set@ =~= Set::<int>::empty());
        }
        set
    }

    /// Whether criterion `idx` is in the set.
    pub fn has_criteria(&self, idx: usize) -> (has: bool)
        ensures
            has == self@.contains(idx as int),
    {
        if idx >= MAX_CRITERIA {
            return false;
        }
        let k = idx as u64;
        (self.bits >> k) & 1u64 == 1u64
    }

    /// Adds criterion `idx`; an index that no set can hold is ignored.
    pub fn set_criteria(&mut self, idx: usize)
        ensures
            final(self)@ == if idx < MAX_CRITERIA {
                old(self)@.insert(idx as int)
            } else {
                old(self)@
            },
    {
        if idx < MAX_CRITERIA {
            let k = idx as u64;
            let ghost before = self.bits;
            self.bits = self.bits | (1u64 << k);
            proof {
                assert forall|i: int|
                    self@.contains(i) == old(self)@.insert(idx as int).contains(i) by {
                    if 0 <= i < 64 {
                        lemma_bit_or(before, 1u64 << k, i as nat);
                        lemma_bit_single(k, i as nat);
                    }
                }
                assert(self@ =~= old(self)@.insert(idx as int));
            }
        }
    }

    /// Removes every member of `other` from the set.
    pub fn clear_criteria(&mut self, other: &CriteriaSet)
        ensures
            final(self)@ == old(self)@.difference(other@),
    {
        let ghost before = self.bits;
        self.bits = self.bits & !other.bits;
        proof {
            assert forall|i: int| self@.contains(i) == old(self)@.difference(other@).contains(i) by {
                if 0 <= i < 64 {
                    let k = i as u64;
                    let o = other.bits;
                    assert((((before & !o) >> k) & 1u64 == 1u64) == (((before >> k) & 1u64 == 1u64)
                        && !((o >> k) & 1u64 == 1u64))) by (bit_vector);
                }
            }
            assert(self@ =~= old(self)@.difference(other@));
        }
    }

    /// Adds every member of `other` to the set.
    pub fn unioned_with(&mut self, other: &CriteriaSet)
        ensures
            final(self)@ == old(self)@.union(other@),
    {
        let ghost before = self.bits;
        self.bits = self.bits | other.bits;
        proof {
            assert forall|i: int| self@.contains(i) == old(self)@.union(other@).contains(i) by {
                if 0 <= i < 64 {
                    lemma_bit_or(before, other.bits, i as nat);
                }
            }
            assert(self@ =~= old(self)@.union(other@));
        }
    }

    /// The members that the set shares with `other`.
    pub fn intersected_with(&self, other: &CriteriaSet) -> (set: CriteriaSet)
        ensures
            set@ == self@.intersect(other@),
    {
        let set = CriteriaSet { bits: self.bits & other.bits };
        proof {
            assert forall|i: int| set@.contains(i) == self@.intersect(other@).contains(i) by {
                if 0 <= i < 64 {
                    lemma_bit_and(self.bits, other.bits, i as nat);
                }
            }
            assert(set@ =~= self@.intersect(other@));
        }
        set
    }

    /// Whether every member of `other` is in the set.
    pub fn contains(&self, other: &CriteriaSet) -> (all: bool)
        ensures
            all == other@.subset_of(self@),
    {
        let both = self.bits & other.bits;
        proof {
            if both == other.bits {
                assert forall|i: int| other@.contains(i) implies self@.contains(i) by {
                    lemma_bit_and(self.bits, other.bits, i as nat);
                }
            }
            if other@.subset_of(self@) {
                assert forall|i: nat| i < 64 implies bit_set(both, i) == bit_set(other.bits, i) by {
                    lemma_bit_and(self.bits, other.bits, i);
                    assert(other@.contains(i as int) ==> self@.contains(i as int));
                }
                lemma_bits_extensional(both, other.bits);
            }
        }
        both == other.bits
    }

    /// Whether the set shares a member with `other`.
    pub fn intersects(&self, other: &CriteriaSet) -> (some: bool)
        ensures
            some == !self@.disjoint(other@),
    {
        let both = self.intersected_with(other);
        proof {
            if both@ == Set::<int>::empty() {
                assert forall|i: int| self@.contains(i) && other@.contains(i) implies false by {
                    assert(both@.contains(i));
                }
            } else {
                if self@.disjoint(other@) {
                    assert forall|i: int| !both@.contains(i) by {}
                    assert(both@ =~= Set::<int>::empty());
                }
            }
        }
        !both.is_empty()
    }

    /// Whether the set has no member.
    pub fn is_empty(&self) -> (empty: bool)
        ensures
            empty == (self@ == Set::<int>::empty()),
    {
        proof {
            if self.bits == 0 {
                assert forall|i: int| !self@.contains(i) by {
                    lemma_bit_zero(i as nat);
                }
                assert(self@ =~= Set::<int>::empty());
            }
            if self@ == Set::<int>::empty() {
                assert forall|i: nat| i < 64 implies bit_set(self.bits, i) == bit_set(0u64, i) by {
                    lemma_bit_zero(i);
                    assert(!self@.contains(i as int));
                }
                lemma_bits_extensional(self.bits, 0u64);
            }
        }
        self.bits == 0
    }

    /// The members of the set, in ascending order.
    pub fn indices(&self) -> (members: Vec<usize>)
        ensures
            members@ == Seq::new(64, |i: int| i as usize).filter(
                |i: usize| self@.contains(i as int),
            ),
    {
        let ghost all = Seq::new(64, |i: int| i as usize);
        let ghost pred = |i: usize| self@.contains(i as int);
        let mut members: Vec<usize> = Vec::new();
        let mut idx: usize = 0;
        assert(all.subrange(0, 0) =~= Seq::<usize>::empty());
        while idx < MAX_CRITERIA
            invariant
                idx <= MAX_CRITERIA,
                all == Seq::new(64, |i: int| i as usize),
                pred == |i: usize| self@.contains(i as int),
                members@ == all.subrange(0, idx as int).filter(pred),
            decreases MAX_CRITERIA - idx,
        {
            proof {
                let prefix = all.subrange(0, idx as int);
                let next = all.subrange(0, idx + 1);
                assert(next =~= prefix.push(idx));
                assert(next.drop_last() =~= prefix);
                reveal(Seq::filter);
                assert(next.filter(pred) == if pred(idx) {
                    prefix.filter(pred).push(idx)
                } else {
                    prefix.filter(pred)
                });
            }
            if self.has_criteria(idx) {
                members.push(idx);
            }
            idx += 1;
        }
        assert(all.subrange(0, 64) =~= all);
        members
    }
}

} // verus!
