//! Equality of lists: element by element, in list order.
use crate::list::BTreeList;
use vstd::prelude::*;
use vstd::std_specs::cmp::{PartialEqSpec, PartialEqSpecImpl};

verus! {

impl<T: PartialEq, const B: usize> PartialEq for BTreeList<T, B> {
    /// Whether the two lists are equal. The trait leaves no room for a
    /// precondition, so the comparison starts by checking both lists; a
    /// list that is not well-formed equals none.
    fn eq(&self, other: &Self) -> (equal: bool) {
        if !self.is_consistent() || !other.is_consistent() {
            return false;
        }
        if self.len() != other.len() {
            return false;
        }
        let mut ours = self.iter();
        let mut theirs = other.iter();
        loop
            invariant
                self.wf(),
                other.wf(),
                self@.len() == other@.len(),
                ours.wf(),
                theirs.wf(),
                ours.list() == *self,
                theirs.list() == *other,
                ours.taken_back() == 0,
                theirs.taken_back() == 0,
                ours.taken_front() == theirs.taken_front(),
                T::obeys_eq_spec() ==> forall|j: int|
                    0 <= j < ours.taken_front() ==> (#[trigger] self@[j]).eq_spec(&other@[j]),
            decreases ours@.len(),
        {
            proof {
                ours.lemma_view();
                theirs.lemma_view();
            }
            match (ours.next(), theirs.next()) {
                (Some(a), Some(b)) => {
                    if !(*a == *b) {
                        return false;
                    }
                },
                _ => {
                    return true;
                },
            }
        }
    }
}

impl<T: PartialEq, const B: usize> PartialEqSpecImpl for BTreeList<T, B> {
    open spec fn obeys_eq_spec() -> bool {
        T::obeys_eq_spec()
    }

    /// Two lists are equal if both are well-formed, they have equal
    /// length, and their elements are equal position by position.
    open spec fn eq_spec(&self, other: &Self) -> bool {
        &&& self.wf()
        &&& other.wf()
        &&& self@.len() == other@.len()
        &&& forall|i: int| 0 <= i < self@.len() ==> (#[trigger] self@[i]).eq_spec(&other@[i])
    }
}

} // verus!
