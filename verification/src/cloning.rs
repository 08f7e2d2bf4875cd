//! Copies of subtrees, made element by element.
use crate::flatten::{lemma_join_related, related};
use crate::node::BTreeListNode;
use vstd::prelude::*;

verus! {

/// The relation between an element and a clone of it.
pub open spec fn clone_of<T: Clone>() -> spec_fn(T, T) -> bool {
    |source: T, copy: T| cloned(source, copy)
}

impl<T: Clone, const B: usize> BTreeListNode<T, B> {
    /// Whether this node has the shape and the cached lengths of
    /// `source`, node by node, and a clone of each of its elements in the
    /// place of that element.
    pub open spec fn is_copy_of(self, source: Self) -> bool
        decreases self,
    {
        &&& self.length == source.length
        &&& related(source.elements@, self.elements@, clone_of::<T>())
        &&& self.children@.len() == source.children@.len()
        &&& forall|i: int|
            0 <= i < self.children@.len() ==> (#[trigger] self.children@[i]).is_copy_of(
                source.children@[i],
            )
    }

    /// A copy of a subtree that meets the invariant meets it too, has the
    /// same height, and holds clones of the elements in the same order.
    pub proof fn lemma_copy(self, copy: Self)
        requires
            self.inv(),
            copy.is_copy_of(self),
        ensures
            copy.inv(),
            copy.height() == self.height(),
            copy.elements@.len() == self.elements@.len(),
            related(self@, copy@, clone_of::<T>()),
        decreases self.height(),
    {
        if self.children@.len() > 0 {
            assert forall|i: int| 0 <= i < self.children@.len() implies {
                &&& (#[trigger] copy.children@[i]).inv()
                &&& copy.children@[i].elements@.len() >= B - 1
                &&& copy.children@[i].height() == self.children@[i].height()
                &&& related(self.children@[i]@, copy.children@[i]@, clone_of::<T>())
            } by {
                self.lemma_inv_child(i);
                assert(copy.children@[i].is_copy_of(self.children@[i]));
                self.children@[i].lemma_copy(copy.children@[i]);
            }
            self.lemma_inv_child(0);
            assert forall|i: int| 0 <= i < self.children@.len() implies related(
                #[trigger] self.child_views()[i],
                copy.child_views()[i],
                clone_of::<T>(),
            ) by {
                assert(copy.children@[i].inv());
            }
            lemma_join_related(
                self.child_views(),
                self.elements@,
                copy.child_views(),
                copy.elements@,
                clone_of::<T>(),
            );
        }
    }
}

impl<T: Clone, const B: usize> Clone for BTreeListNode<T, B> {
    /// A copy of the subtree with a clone of every element.
    fn clone(&self) -> (copy: Self)
        ensures
            copy.is_copy_of(*self),
        decreases self,
    {
        let elements = self.elements.clone();
        let mut children: Vec<BTreeListNode<T, B>> = Vec::new();
        let mut i: usize = 0;
        while i < self.children.len()
            invariant
                i <= self.children@.len(),
                children@.len() == i,
                forall|j: int|
                    0 <= j < i ==> (#[trigger] children@[j]).is_copy_of(self.children@[j]),
            decreases self.children@.len() - i,
        {
            let child = self.children[i].clone();
            children.push(child);
            i += 1;
        }
        BTreeListNode { elements, children, length: self.length }
    }
}

} // verus!
