//! The list handle: it owns the root of the tree, if there is one, checks
//! the bounds of every index, and lets the tree grow and shrink at its root.
use crate::flatten::{before, lemma_join_one};
use crate::iter::Iter;
use crate::node::{valid_degree, BTreeListNode};
use crate::owned_iter::OwnedIter;
use vstd::arithmetic::power::pow;
use vstd::pervasive::unreached;
use vstd::prelude::*;

verus! {

/// A list with efficient insertion and removal in the middle.
///
/// The list is a tree of minimum degree `B`: every node but the root holds
/// between `B - 1` and `2 * B - 1` elements. Its view is the sequence of its
/// elements in list order.
#[derive(Debug)]
pub struct BTreeList<T, const B: usize> {
    root_node: Option<BTreeListNode<T, B>>,
}

impl<T, const B: usize> View for BTreeList<T, B> {
    type V = Seq<T>;

    closed spec fn view(&self) -> Seq<T> {
        match self.root_node {
            Some(root) => root@,
            None => Seq::empty(),
        }
    }
}

impl<T, const B: usize> BTreeList<T, B> {
    /// The root of the tree. A list without elements has none.
    pub closed spec fn root(self) -> Option<BTreeListNode<T, B>> {
        self.root_node
    }

    /// The number of levels of the tree below its root; zero for a list
    /// without elements.
    pub closed spec fn height(self) -> nat {
        match self.root_node {
            Some(root) => root.height(),
            None => 0,
        }
    }

    /// Whether the root holds as many elements as a node can, so that the
    /// next insertion makes the tree grow by a level.
    pub closed spec fn root_is_full(self) -> bool {
        match self.root_node {
            Some(root) => root.elements@.len() == 2 * B - 1,
            None => false,
        }
    }

    /// Whether the root is an internal node with one element between two
    /// children of `B - 1` elements each, so that the next removal makes
    /// the tree lose a level.
    pub closed spec fn root_is_minimal(self) -> bool {
        match self.root_node {
            Some(root) => root.is_minimal(),
            None => false,
        }
    }

    /// Well-formedness of the list: `B` is a valid minimum degree, and the
    /// root, where there is one, holds at least one element and meets the
    /// invariant of the tree's nodes.
    pub closed spec fn wf(self) -> bool {
        &&& valid_degree(B)
        &&& match self.root_node {
            Some(root) => root.inv() && root.elements@.len() >= 1,
            None => true,
        }
    }

    /// Whether the two trees have the same shape: node by node, the same
    /// cached length, as many elements and as many children.
    pub open spec fn same_shape(self, other: Self) -> bool {
        match (self.root(), other.root()) {
            (Some(root), Some(other_root)) => root.same_shape(other_root),
            (None, None) => true,
            _ => false,
        }
    }

    /// Whether every node of the tree caches the number of elements in its
    /// subtree: its own elements and what its children have cached.
    pub open spec fn lengths_exact(self) -> bool {
        self.root() matches Some(root) ==> root.lengths_exact()
    }

    /// Whether every node but the root holds between `B - 1` and
    /// `2 * B - 1` elements, the root at most `2 * B - 1`, and every
    /// internal node has one child more than it has elements.
    pub open spec fn occupancy_holds(self) -> bool {
        self.root() matches Some(root) ==> root.occupancy_holds()
    }

    /// In a well-formed list every node caches the exact length of its
    /// subtree and holds no more and no fewer elements than it may.
    pub proof fn lemma_wf_laws(self)
        requires
            self.wf(),
        ensures
            self.lengths_exact(),
            self.occupancy_holds(),
    {
        if let Some(root) = self.root_node {
            root.lemma_inv_laws();
        }
    }

    /// What well-formedness says of the root: the list's sequence is the one
    /// that the root's subtree holds.
    pub proof fn lemma_root(self)
        requires
            self.wf(),
        ensures
            valid_degree(B),
            (match self.root() {
                Some(root) => root.inv() && root.elements@.len() >= 1 && root@ == self@
                    && self@.len() >= 1,
                None => self@ == Seq::<T>::empty(),
            }),
    {
        if let Some(root) = self.root_node {
            if root.children@.len() > 0 {
                root.lemma_view_split(0);
                root.lemma_inv_child(0);
                assert(root.after(0).len() >= 1);
            }
        }
    }

    /// The tree is shallow: a list with elements holds at least twice `B`
    /// to the power of its height, less one, of them.
    pub proof fn lemma_height_is_logarithmic(self)
        requires
            self.wf(),
            self@.len() > 0,
        ensures
            self@.len() + 1 >= 2 * pow(B as int, self.height()),
            self.root() is Some,
            self.height() == self.root().unwrap().height(),
    {
        self.lemma_root();
        self.root_node.unwrap().lemma_height_is_logarithmic();
    }

    /// Construct a new, empty list.
    ///
    /// No allocation occurs until elements are added.
    pub fn new() -> (list: Self)
        requires
            valid_degree(B),
        ensures
            list.wf(),
            list@ == Seq::<T>::empty(),
    {
        Self { root_node: None }
    }

    /// Get the length of the list.
    pub fn len(&self) -> (len: usize)
        requires
            self.wf(),
        ensures
            len == self@.len(),
    {
        match &self.root_node {
            Some(root) => root.len(),
            None => 0,
        }
    }

    /// Check if the list is empty.
    pub fn is_empty(&self) -> (empty: bool)
        requires
            self.wf(),
        ensures
            empty == (self@.len() == 0),
    {
        self.len() == 0
    }

    /// Create an iterator through the list.
    pub fn iter(&self) -> (iter: Iter<'_, T, B>)
        requires
            self.wf(),
        ensures
            iter.wf(),
            iter.list() == *self,
            iter@ == self@,
            iter.taken_front() == 0,
            iter.taken_back() == 0,
    {
        Iter::new(self)
    }

    /// Turn the list into an iterator that hands out its elements.
    pub fn into_iter(self) -> (iter: OwnedIter<T, B>)
        requires
            self.wf(),
        ensures
            iter.wf(),
            iter@ == self@,
    {
        OwnedIter::new(self)
    }

    /// Insert the `element` into the list at `index`. Returns the element to
    /// be inserted if the index is out of bounds.
    pub fn insert(&mut self, index: usize, element: T) -> (result: Result<(), T>)
        requires
            old(self).wf(),
            index <= old(self)@.len() ==> old(self)@.len() < usize::MAX,
        ensures
            final(self).wf(),
            index <= old(self)@.len() ==> result == Ok::<(), T>(())
                && final(self)@ == old(self)@.insert(index as int, element),
            index > old(self)@.len() ==> result == Err::<(), T>(element)
                && final(self)@ == old(self)@,
            result is Ok <==> index <= old(self)@.len(),
            result is Ok ==> final(self).root() is Some,
            result is Ok && old(self).root() is None ==> final(self).root().unwrap().elements@
                == seq![element] && final(self).root().unwrap().children@.len() == 0,
            result is Ok && old(self).root_is_full() ==> final(self).root().unwrap().elements@
                == seq![old(self).root().unwrap().elements@[B - 1]]
                && final(self).root().unwrap().children@.len() == 2,
            result is Ok && old(self).root() is Some && !old(self).root_is_full() ==> (
            final(self).root().unwrap().children@.len() == 0
                <==> old(self).root().unwrap().children@.len() == 0),
            final(self)@.len() == old(self)@.len() + (if result is Ok {
                1int
            } else {
                0int
            }),
            final(self).lengths_exact(),
            final(self).occupancy_holds(),
            final(self).height() == old(self).height() + (if index <= old(self)@.len()
                && old(self).root_is_full() {
                1int
            } else {
                0int
            }),
    {
        let old_len = self.len();
        if index > old_len {
            proof {
                self.lemma_wf_laws();
            }
            return Err(element);
        }
        match &mut self.root_node {
            Some(root) => {
                if root.is_full() {
                    let ghost full_root = *root;
                    let mut old_root = BTreeListNode::new();
                    core::mem::swap(root, &mut old_root);
                    root.length += old_root.len();
                    root.children.push(old_root);
                    proof {
                        lemma_join_one(root.child_views(), root.elements@);
                        assert(root.child_views()[0] == full_root@);
                    }
                    root.split_child(0);
                    let ghost split_root = *root;
                    // After splitting, the root has one element and two
                    // children: find which child the index is in.
                    let first_child_len = root.children[0].len();
                    proof {
                        split_root.lemma_inv_child(0);
                        split_root.lemma_inv_child(1);
                        split_root.lemma_view_split_pair(0);
                        assert(split_root.before(1) =~= split_root.children@[0]@
                            + seq![split_root.elements@[0]]) by {
                            assert(before(split_root.child_views(), split_root.elements@, 0)
                                =~= Seq::<T>::empty());
                        }
                    }
                    if first_child_len < index {
                        let insertion_index = index - (first_child_len + 1);
                        root.length += 1;
                        match root.children[1].insert_into_non_full_node(insertion_index, element) {
                            Ok(()) => {},
                            Err(element) => {
                                return Err(element);
                            },
                        }
                        proof {
                            split_root.lemma_inserted_in_child(
                                *root,
                                1,
                                insertion_index as int,
                                element,
                            );
                        }
                    } else {
                        root.length += 1;
                        match root.children[0].insert_into_non_full_node(index, element) {
                            Ok(()) => {},
                            Err(element) => {
                                return Err(element);
                            },
                        }
                        proof {
                            split_root.lemma_inserted_in_child(*root, 0, index as int, element);
                        }
                    }
                } else {
                    match root.insert_into_non_full_node(index, element) {
                        Ok(()) => {},
                        Err(element) => {
                            return Err(element);
                        },
                    }
                }
            },
            None => {
                let mut elements = Vec::new();
                elements.push(element);
                self.root_node = Some(BTreeListNode { elements, children: Vec::new(), length: 1 });
                proof {
                    assert(self@ =~= old(self)@.insert(index as int, element));
                }
            },
        }
        proof {
            self.lemma_wf_laws();
        }
        Ok(())
    }

    /// Push the `element` onto the back of the list.
    pub fn push(&mut self, element: T)
        requires
            old(self).wf(),
            old(self)@.len() < usize::MAX,
        ensures
            final(self).wf(),
            final(self).lengths_exact(),
            final(self).occupancy_holds(),
            final(self)@ == old(self)@.push(element),
            old(self).height() <= final(self).height() <= old(self).height() + 1,
    {
        proof {
            self.lemma_wf_laws();
        }
        self.push_back(element)
    }

    /// Push the `element` onto the back of the list.
    pub fn push_back(&mut self, element: T)
        requires
            old(self).wf(),
            old(self)@.len() < usize::MAX,
        ensures
            final(self).wf(),
            final(self).lengths_exact(),
            final(self).occupancy_holds(),
            final(self)@ == old(self)@.push(element),
            old(self).height() <= final(self).height() <= old(self).height() + 1,
    {
        proof {
            self.lemma_wf_laws();
        }
        let l = self.len();
        // One can always push onto the end of a list.
        let _ = self.insert(l, element);
        proof {
            assert(old(self)@.insert(l as int, element) =~= old(self)@.push(element));
        }
    }

    /// Push the `element` onto the front of the list.
    pub fn push_front(&mut self, element: T)
        requires
            old(self).wf(),
            old(self)@.len() < usize::MAX,
        ensures
            final(self).wf(),
            final(self).lengths_exact(),
            final(self).occupancy_holds(),
            final(self)@ == seq![element] + old(self)@,
            old(self).height() <= final(self).height() <= old(self).height() + 1,
    {
        proof {
            self.lemma_wf_laws();
        }
        // One can always push onto the start of a list.
        let _ = self.insert(0, element);
        proof {
            assert(old(self)@.insert(0, element) =~= seq![element] + old(self)@);
        }
    }

    /// Remove and return the last element from the list, if there is one.
    pub fn pop(&mut self) -> (popped: Option<T>)
        requires
            old(self).wf(),
        ensures
            final(self).wf(),
            final(self).lengths_exact(),
            final(self).occupancy_holds(),
            old(self)@.len() > 0 ==> popped == Some(old(self)@.last())
                && final(self)@ == old(self)@.drop_last(),
            old(self)@.len() == 0 ==> popped is None && final(self)@ == old(self)@,
            final(self).height() <= old(self).height() <= final(self).height() + 1,
    {
        proof {
            self.lemma_wf_laws();
        }
        self.pop_back()
    }

    /// Remove and return the last element from the list, if there is one.
    pub fn pop_back(&mut self) -> (popped: Option<T>)
        requires
            old(self).wf(),
        ensures
            final(self).wf(),
            final(self).lengths_exact(),
            final(self).occupancy_holds(),
            old(self)@.len() > 0 ==> popped == Some(old(self)@.last())
                && final(self)@ == old(self)@.drop_last(),
            old(self)@.len() == 0 ==> popped is None && final(self)@ == old(self)@,
            final(self).height() <= old(self).height() <= final(self).height() + 1,
    {
        proof {
            self.lemma_wf_laws();
        }
        if !self.is_empty() {
            let last = self.len() - 1;
            let popped = self.remove(last);
            proof {
                assert(old(self)@.remove(last as int) =~= old(self)@.drop_last());
            }
            popped
        } else {
            None
        }
    }

    /// Remove and return the first element from the list, if there is one.
    pub fn pop_front(&mut self) -> (popped: Option<T>)
        requires
            old(self).wf(),
        ensures
            final(self).wf(),
            final(self).lengths_exact(),
            final(self).occupancy_holds(),
            old(self)@.len() > 0 ==> popped == Some(old(self)@[0])
                && final(self)@ == old(self)@.drop_first(),
            old(self)@.len() == 0 ==> popped is None && final(self)@ == old(self)@,
            final(self).height() <= old(self).height() <= final(self).height() + 1,
    {
        proof {
            self.lemma_wf_laws();
        }
        if !self.is_empty() {
            let popped = self.remove(0);
            proof {
                assert(old(self)@.remove(0) =~= old(self)@.drop_first());
            }
            popped
        } else {
            None
        }
    }

    /// Removes the element at `index` from the list if it exists.
    pub fn remove(&mut self, index: usize) -> (removed: Option<T>)
        requires
            old(self).wf(),
        ensures
            final(self).wf(),
            index < old(self)@.len() ==> removed == Some(old(self)@[index as int])
                && final(self)@ == old(self)@.remove(index as int),
            index >= old(self)@.len() ==> removed is None && final(self)@ == old(self)@,
            removed is Some <==> index < old(self)@.len(),
            final(self).root() is None <==> final(self)@.len() == 0,
            final(self)@.len() == old(self)@.len() - (if removed is Some {
                1int
            } else {
                0int
            }),
            final(self).lengths_exact(),
            final(self).occupancy_holds(),
            final(self).height() == old(self).height() - (if index < old(self)@.len()
                && old(self).root_is_minimal() {
                1int
            } else {
                0int
            }),
    {
        if index >= self.len() {
            proof {
                self.lemma_wf_laws();
                self.lemma_root();
            }
            return None;
        }
        match &mut self.root_node {
            Some(root) => {
                let old = root.remove(index)?;
                if root.elements.is_empty() {
                    if root.is_leaf() {
                        self.root_node = None;
                    } else {
                        proof {
                            lemma_join_one(root.child_views(), root.elements@);
                            root.lemma_inv_child(0);
                        }
                        let child = root.children.remove(0);
                        self.root_node = Some(child);
                    }
                }
                proof {
                    self.lemma_wf_laws();
                    self.lemma_root();
                }
                Some(old)
            },
            None => None,
        }
    }

    /// Update the `element` at `index` in the list, returning the old value
    /// on success, or the given value when the index is out of bounds.
    pub fn set(&mut self, index: usize, element: T) -> (result: Result<T, T>)
        requires
            old(self).wf(),
        ensures
            final(self).wf(),
            final(self).same_shape(*old(self)),
            index < old(self)@.len() ==> result == Ok::<T, T>(old(self)@[index as int])
                && final(self)@ == old(self)@.update(index as int, element),
            index >= old(self)@.len() ==> result == Err::<T, T>(element)
                && final(self)@ == old(self)@,
            final(self).height() == old(self).height(),
            final(self).lengths_exact(),
            final(self).occupancy_holds(),
    {
        let result = match &mut self.root_node {
            Some(root) => root.set(index, element),
            None => Err(element),
        };
        proof {
            self.lemma_wf_laws();
        }
        result
    }

    /// Exchanges the elements at `a` and `b`. Returns whether the swap was
    /// successful: it is not, and the list stays as it is, if one of the
    /// two is out of bounds.
    pub fn swap(&mut self, a: usize, b: usize) -> (swapped: bool)
        requires
            old(self).wf(),
        ensures
            final(self).wf(),
            final(self).lengths_exact(),
            final(self).occupancy_holds(),
            swapped == (a < old(self)@.len() && b < old(self)@.len()),
            swapped ==> final(self)@ == old(self)@.update(a as int, old(self)@[b as int]).update(
                b as int,
                old(self)@[a as int],
            ),
            !swapped ==> final(self)@ == old(self)@,
            old(self).height() <= final(self).height() + 1,
            final(self).height() <= old(self).height() + 1,
    {
        proof {
            self.lemma_wf_laws();
        }
        if a > b {
            self.swap_inner(b, a)
        } else if a < b {
            self.swap_inner(a, b)
        } else {
            proof {
                if a < self@.len() {
                    assert(self@ =~= self@.update(a as int, self@[b as int]).update(
                        b as int,
                        self@[a as int],
                    ));
                }
            }
            a < self.len()
        }
    }

    /// Swap two elements, `a` before `b`: the later one is taken out, put
    /// in the place of the earlier one, and that one inserted where the
    /// later one stood. Returns whether the swap was successful.
    fn swap_inner(&mut self, a: usize, b: usize) -> (swapped: bool)
        requires
            old(self).wf(),
            a < b,
        ensures
            final(self).wf(),
            final(self).lengths_exact(),
            final(self).occupancy_holds(),
            swapped == (b < old(self)@.len()),
            swapped ==> final(self)@ == old(self)@.update(a as int, old(self)@[b as int]).update(
                b as int,
                old(self)@[a as int],
            ),
            !swapped ==> final(self)@ == old(self)@,
            old(self).height() <= final(self).height() + 1,
            final(self).height() <= old(self).height() + 1,
    {
        proof {
            self.lemma_wf_laws();
        }
        let b_elt = match self.remove(b) {
            Some(elt) => elt,
            None => {
                return false;
            },
        };
        let a_elt = match self.set(a, b_elt) {
            Ok(old) => old,
            Err(_) => unreached(),
        };
        match self.insert(b, a_elt) {
            Ok(()) => {},
            Err(_) => unreached(),
        };
        proof {
            assert(self@ =~= old(self)@.update(a as int, old(self)@[b as int]).update(
                b as int,
                old(self)@[a as int],
            ));
        }
        true
    }

    /// Get the element at `index` in the list.
    pub fn get(&self, index: usize) -> (element: Option<&T>)
        requires
            self.wf(),
        ensures
            index < self@.len() ==> element == Some(&self@[index as int]),
            index >= self@.len() ==> element is None,
    {
        match &self.root_node {
            Some(root) => root.get(index),
            None => None,
        }
    }

    /// Get the element at `index` in the list, for writing.
    pub fn get_mut(&mut self, index: usize) -> (element: Option<&mut T>)
        requires
            old(self).wf(),
        ensures
            final(self).wf(),
            final(self).same_shape(*old(self)),
            final(self).height() == old(self).height(),
            (match element {
                Some(element) => index < old(self)@.len() && *element == old(self)@[index as int]
                    && final(self)@ == old(self)@.update(index as int, *final(element)),
                None => index >= old(self)@.len() && final(self)@ == old(self)@,
            }),
    {
        match &mut self.root_node {
            Some(root) => root.get_mut(index),
            None => None,
        }
    }

    /// The element at position `index`, which lies within the list, for
    /// writing.
    pub fn index_mut(&mut self, index: usize) -> (element: &mut T)
        requires
            old(self).wf(),
            index < old(self)@.len(),
        ensures
            final(self).wf(),
            final(self).same_shape(*old(self)),
            final(self).height() == old(self).height(),
            *element == old(self)@[index as int],
            final(self)@ == old(self)@.update(index as int, *final(element)),
    {
        match &mut self.root_node {
            Some(root) => match root.get_mut(index) {
                Some(element) => element,
                None => unreached(),
            },
            None => unreached(),
        }
    }

    /// Get the first element in the list if it exists.
    pub fn first(&self) -> (element: Option<&T>)
        requires
            self.wf(),
        ensures
            self@.len() > 0 ==> element == Some(&self@[0]),
            self@.len() == 0 ==> element is None,
    {
        self.get(0)
    }

    /// Get the first element in the list if it exists, for writing.
    pub fn first_mut(&mut self) -> (element: Option<&mut T>)
        requires
            old(self).wf(),
        ensures
            final(self).wf(),
            final(self).same_shape(*old(self)),
            final(self).height() == old(self).height(),
            (match element {
                Some(element) => old(self)@.len() > 0 && *element == old(self)@[0] && final(self)@
                    == old(self)@.update(0, *final(element)),
                None => old(self)@.len() == 0 && final(self)@ == old(self)@,
            }),
    {
        self.get_mut(0)
    }

    /// Get the last element in the list if it exists.
    pub fn last(&self) -> (element: Option<&T>)
        requires
            self.wf(),
        ensures
            self@.len() > 0 ==> element == Some(&self@.last()),
            self@.len() == 0 ==> element is None,
    {
        if self.is_empty() {
            return None;
        }
        self.get(self.len() - 1)
    }

    /// Get the last element in the list if it exists, for writing.
    pub fn last_mut(&mut self) -> (element: Option<&mut T>)
        requires
            old(self).wf(),
        ensures
            final(self).wf(),
            final(self).same_shape(*old(self)),
            final(self).height() == old(self).height(),
            (match element {
                Some(element) => old(self)@.len() > 0 && *element == old(self)@.last()
                    && final(self)@ == old(self)@.update(
                    old(self)@.len() - 1,
                    *final(element),
                ),
                None => old(self)@.len() == 0 && final(self)@ == old(self)@,
            }),
    {
        if self.is_empty() {
            return None;
        }
        let last = self.len() - 1;
        self.get_mut(last)
    }

    /// Push the `items` onto the back of the list, in their order.
    pub fn extend(&mut self, items: Vec<T>)
        requires
            old(self).wf(),
            old(self)@.len() + items@.len() <= usize::MAX,
        ensures
            final(self).wf(),
            final(self).lengths_exact(),
            final(self).occupancy_holds(),
            final(self)@ == old(self)@ + items@,
            old(self).height() <= final(self).height() <= old(self).height() + items@.len(),
    {
        proof {
            self.lemma_wf_laws();
        }
        for item in iter: items
            invariant
                self.wf(),
                iter.seq() == items@,
                old(self)@.len() + items@.len() <= usize::MAX,
                self@ == old(self)@ + items@.take(iter.index()),
                old(self).height() <= self.height() <= old(self).height() + iter.index(),
        {
            self.push_back(item);
            proof {
                assert(items@.take(iter.index() + 1) =~= items@.take(iter.index()).push(item));
            }
        }
        proof {
            assert(items@.take(items@.len() as int) =~= items@);
            self.lemma_wf_laws();
        }
    }

    /// A list of the `items`, in their order.
    pub fn from_iter(items: Vec<T>) -> (list: Self)
        requires
            valid_degree(B),
        ensures
            list.wf(),
            list@ == items@,
    {
        let mut list = BTreeList::new();
        proof {
            assert(items@.len() == items.len());
        }
        list.extend(items);
        list
    }

    /// Checks at run time whether the list is well-formed, node by node.
    pub fn is_consistent(&self) -> (consistent: bool)
        ensures
            consistent == self.wf(),
    {
        if B < 2 || B > usize::MAX / 2 {
            return false;
        }
        match &self.root_node {
            Some(root) => root.audit().is_some() && root.elements.len() >= 1,
            None => true,
        }
    }

    /// Counts the elements afresh, node by node, without the help of the
    /// cached lengths.
    pub fn check(&self) -> (n: usize)
        requires
            self.wf(),
        ensures
            n == self@.len(),
    {
        match &self.root_node {
            Some(root) => root.check(),
            None => 0,
        }
    }
}

impl<T> Default for BTreeList<T, 6> {
    /// An empty list of minimum degree six.
    fn default() -> (list: Self)
        ensures
            list.wf(),
            list@ == Seq::<T>::empty(),
    {
        Self::new()
    }
}

impl<T, const B: usize> vstd::std_specs::core::IndexSpecImpl<usize> for BTreeList<T, B> {
    /// Reading by position asks for a well-formed list and a position
    /// within it.
    open spec fn index_req(&self, index: &usize) -> bool {
        self.wf() && *index < self@.len()
    }
}

impl<T, const B: usize> core::ops::Index<usize> for BTreeList<T, B> {
    type Output = T;

    /// The element at position `index`.
    fn index(&self, index: usize) -> (element: &T)
        ensures
            *element == self@[index as int],
    {
        self.get(index).unwrap()
    }
}

impl<T: Clone, const B: usize> Clone for BTreeList<T, B> {
    /// A list of clones of the elements, in the same order.
    fn clone(&self) -> (copy: Self)
        ensures
            self.wf() ==> copy.wf(),
            self.wf() ==> copy@.len() == self@.len(),
            self.wf() ==> forall|i: int|
                0 <= i < self@.len() ==> cloned(#[trigger] self@[i], copy@[i]),
    {
        let root_node = match &self.root_node {
            Some(root) => {
                let copy = root.clone();
                proof {
                    if self.wf() {
                        root.lemma_copy(copy);
                    }
                }
                Some(copy)
            },
            None => None,
        };
        BTreeList { root_node }
    }
}

} // verus!
