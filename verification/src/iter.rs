//! A cursor over a list that can be moved from both ends.
use crate::list::BTreeList;
use vstd::prelude::*;

verus! {

/// An iterator over items in a [`BTreeList`].
///
/// It holds the positions of the next element from the front and of the
/// one behind the next element from the back; its view is the run of
/// elements between the two, which are those still to come.
#[derive(Debug)]
pub struct Iter<'a, T, const B: usize> {
    inner: &'a BTreeList<T, B>,
    index: usize,
    index_back: usize,
}

impl<'a, T, const B: usize> View for Iter<'a, T, B> {
    type V = Seq<T>;

    closed spec fn view(&self) -> Seq<T> {
        self.inner@.subrange(self.index as int, self.index_back as int)
    }
}

impl<'a, T, const B: usize> Iter<'a, T, B> {
    /// The list that is iterated over.
    pub closed spec fn list(self) -> BTreeList<T, B> {
        *self.inner
    }

    /// How many elements have been taken from the front.
    pub closed spec fn taken_front(self) -> nat {
        self.index as nat
    }

    /// How many elements have been taken from the back.
    pub closed spec fn taken_back(self) -> nat {
        (self.inner@.len() - self.index_back) as nat
    }

    /// Well-formedness: the list is well-formed and the two positions lie
    /// within it, the front one not behind the back one.
    pub closed spec fn wf(self) -> bool {
        &&& self.inner.wf()
        &&& self.index <= self.index_back <= self.inner@.len()
    }

    /// The elements still to come are those of the list without the ones
    /// taken from either end.
    pub proof fn lemma_view(self)
        requires
            self.wf(),
        ensures
            self.taken_front() + self@.len() + self.taken_back() == self.list()@.len(),
            self@ == self.list()@.subrange(
                self.taken_front() as int,
                self.list()@.len() - self.taken_back(),
            ),
    {
    }

    /// An iterator that has all of `list` before it.
    pub fn new(list: &'a BTreeList<T, B>) -> (iter: Self)
        requires
            list.wf(),
        ensures
            iter.wf(),
            iter.list() == *list,
            iter@ == list@,
            iter.taken_front() == 0,
            iter.taken_back() == 0,
    {
        let iter = Iter { inner: list, index: 0, index_back: list.len() };
        proof {
            assert(iter@ =~= list@);
        }
        iter
    }

    /// The next element from the front, if any is left.
    pub fn next(&mut self) -> (item: Option<&'a T>)
        requires
            old(self).wf(),
        ensures
            final(self).wf(),
            final(self).list() == old(self).list(),
            final(self).taken_back() == old(self).taken_back(),
            old(self)@.len() > 0 ==> item == Some(&old(self)@[0])
                && final(self)@ == old(self)@.drop_first()
                && final(self).taken_front() == old(self).taken_front() + 1,
            old(self)@.len() == 0 ==> item is None && final(self)@ == old(self)@
                && final(self).taken_front() == old(self).taken_front(),
    {
        if self.index < self.index_back {
            self.index += 1;
            proof {
                assert(self@ =~= old(self)@.drop_first());
            }
            self.inner.get(self.index - 1)
        } else {
            None
        }
    }

    /// The next element from the back, if any is left.
    pub fn next_back(&mut self) -> (item: Option<&'a T>)
        requires
            old(self).wf(),
        ensures
            final(self).wf(),
            final(self).list() == old(self).list(),
            final(self).taken_front() == old(self).taken_front(),
            old(self)@.len() > 0 ==> item == Some(&old(self)@.last())
                && final(self)@ == old(self)@.drop_last()
                && final(self).taken_back() == old(self).taken_back() + 1,
            old(self)@.len() == 0 ==> item is None && final(self)@ == old(self)@
                && final(self).taken_back() == old(self).taken_back(),
    {
        if self.index < self.index_back {
            self.index_back -= 1;
            proof {
                assert(self@ =~= old(self)@.drop_last());
            }
            self.inner.get(self.index_back)
        } else {
            None
        }
    }
}

} // verus!
