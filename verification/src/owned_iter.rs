//! A cursor that owns its list and takes it apart from both ends.
use crate::list::BTreeList;
use vstd::prelude::*;

verus! {

/// An iterator that owns a [`BTreeList`] and hands out its items.
///
/// Its view is the sequence of the elements still to come.
#[derive(Debug)]
pub struct OwnedIter<T, const B: usize> {
    inner: BTreeList<T, B>,
}

impl<T, const B: usize> View for OwnedIter<T, B> {
    type V = Seq<T>;

    closed spec fn view(&self) -> Seq<T> {
        self.inner@
    }
}

impl<T, const B: usize> OwnedIter<T, B> {
    /// Well-formedness: the list that is left is well-formed.
    pub closed spec fn wf(self) -> bool {
        self.inner.wf()
    }

    /// An iterator that has all of `list` before it.
    pub fn new(list: BTreeList<T, B>) -> (iter: Self)
        requires
            list.wf(),
        ensures
            iter.wf(),
            iter@ == list@,
    {
        OwnedIter { inner: list }
    }

    /// Takes the next element from the front, if any is left.
    pub fn next(&mut self) -> (item: Option<T>)
        requires
            old(self).wf(),
        ensures
            final(self).wf(),
            old(self)@.len() > 0 ==> item == Some(old(self)@[0])
                && final(self)@ == old(self)@.drop_first(),
            old(self)@.len() == 0 ==> item is None && final(self)@ == old(self)@,
    {
        if !self.inner.is_empty() {
            self.inner.pop_front()
        } else {
            None
        }
    }

    /// Takes the next element from the back, if any is left.
    pub fn next_back(&mut self) -> (item: Option<T>)
        requires
            old(self).wf(),
        ensures
            final(self).wf(),
            old(self)@.len() > 0 ==> item == Some(old(self)@.last())
                && final(self)@ == old(self)@.drop_last(),
            old(self)@.len() == 0 ==> item is None && final(self)@ == old(self)@,
    {
        if !self.inner.is_empty() {
            self.inner.pop_back()
        } else {
            None
        }
    }
}

} // verus!
