//! The tree node: a bounded run of elements, the subtrees between them, and
//! the cached number of elements in the whole subtree.
use crate::flatten::{
    after, before, join, lemma_before_len, lemma_join_len, lemma_subs_len_mono, subs_len,
};
use vstd::prelude::*;

verus! {

/// Whether `b` can serve as the minimum degree of a tree: at least two, and
/// small enough for the size of a full node, `2 * b - 1`, to be computed.
pub open spec fn valid_degree(b: usize) -> bool {
    2 <= b <= usize::MAX / 2
}

/// A node of the tree with minimum degree `B`.
///
/// A leaf has no children. An internal node with `k` elements has `k + 1`
/// children, and its `i`-th element lies between the subtrees of child `i`
/// and child `i + 1`.
#[derive(Debug)]
pub struct BTreeListNode<T, const B: usize> {
    /// The node's own elements, in list order.
    pub elements: Vec<T>,
    /// The subtrees around the elements; none in a leaf.
    pub children: Vec<BTreeListNode<T, B>>,
    /// The cached number of elements in the whole subtree.
    pub length: usize,
}

impl<T, const B: usize> BTreeListNode<T, B> {
    /// The sequences held by the children, in order.
    pub open spec fn child_views(self) -> Seq<Seq<T>>
        decreases self, 0int,
    {
        Seq::new(
            self.children@.len(),
            |i: int|
                if 0 <= i < self.children@.len() {
                    self.children@[i].view()
                } else {
                    Seq::empty()
                },
        )
    }

    /// The elements of the subtree in list order.
    pub open spec fn view(self) -> Seq<T>
        decreases self, 1int,
    {
        if self.children@.len() == 0 {
            self.elements@
        } else {
            join(self.child_views(), self.elements@)
        }
    }

    /// The part of the subtree's sequence that lies before child `i`.
    pub open spec fn before(self, i: int) -> Seq<T> {
        before(self.child_views(), self.elements@, i)
    }

    /// The part of the subtree's sequence that lies after child `i`.
    pub open spec fn after(self, i: int) -> Seq<T> {
        after(self.child_views(), self.elements@, i)
    }

    /// The number of levels below this node.
    pub open spec fn height(self) -> nat
        decreases self,
    {
        if self.children@.len() == 0 {
            0
        } else {
            self.children@[0].height() + 1
        }
    }

    /// The invariant of every node of a tree, the root included: the node is
    /// not over-full, its cached length is the number of elements in its
    /// subtree, an internal node has one child more than it has elements,
    /// and every child is itself such a node, holds at least `B - 1`
    /// elements and stands one level lower.
    pub open spec fn inv(self) -> bool
        decreases self,
    {
        &&& valid_degree(B)
        &&& self.elements@.len() <= 2 * B - 1
        &&& self.length == self.view().len()
        &&& (self.children@.len() == 0 || self.children@.len() == self.elements@.len() + 1)
        &&& forall|i: int|
            0 <= i < self.children@.len() ==> {
                &&& (#[trigger] self.children@[i]).inv()
                &&& self.children@[i].elements@.len() >= B - 1
                &&& self.children@[i].height() + 1 == self.height()
            }
    }

    /// Whether position `index` of the subtree falls in the range of child
    /// `i`, at offset `sub`. The range of a child includes the position
    /// just behind its last element.
    pub open spec fn in_child(self, index: int, i: int, sub: int) -> bool {
        &&& 0 <= i < self.children@.len()
        &&& 0 <= sub <= self.children@[i]@.len()
        &&& index == self.before(i).len() + sub
    }

    /// The child in whose range position `index` falls, and the offset of
    /// the position in that child.
    pub open spec fn locate(self, index: int) -> (int, int) {
        choose|i: int, sub: int| self.in_child(index, i, sub)
    }

    /// Whether an insertion at position `index` starts by splitting a
    /// child of this node: the child in whose range the position falls is
    /// full.
    pub open spec fn splits_for(self, index: int) -> bool {
        &&& self.children@.len() > 0
        &&& self.children@[self.locate(index).0].elements@.len() == 2 * B - 1
    }

    /// Whether the removal of position `index` takes an element from this
    /// node itself: the node is a leaf, or the removal starts by merging
    /// two of its children.
    pub open spec fn sheds_for(self, index: int) -> bool {
        if self.children@.len() == 0 {
            true
        } else if self.locate(index).1 == self.children@[self.locate(index).0]@.len() {
            self.merges_at_element(self.locate(index).0)
        } else {
            self.merges_at_child(self.locate(index).0)
        }
    }

    /// Whether a removal below child `i` starts by merging that child with
    /// a sibling: the child and the siblings it has hold fewer than `B`
    /// elements each.
    pub open spec fn merges_at_child(self, i: int) -> bool {
        &&& self.children@[i].elements@.len() < B
        &&& (i > 0 ==> self.children@[i - 1].elements@.len() < B)
        &&& (i + 1 < self.children@.len() ==> self.children@[i + 1].elements@.len() < B)
    }

    /// Whether the removal of the node's own element `i` starts by merging
    /// the two children around it: both hold fewer than `B` elements.
    pub open spec fn merges_at_element(self, i: int) -> bool {
        &&& self.children@[i].elements@.len() < B
        &&& self.children@[i + 1].elements@.len() < B
    }

    /// Where the merged child stands when child `i` is merged with a
    /// sibling: at the place of its left sibling, or at its own if it is
    /// the first child.
    pub open spec fn merge_place(i: int) -> int {
        if i > 0 {
            i - 1
        } else {
            i
        }
    }

    /// Whether a removal below child `i` starts by moving an element over
    /// from the left sibling: the child holds fewer than `B` elements, and
    /// the sibling to its left has one to spare.
    pub open spec fn borrows_from_left(self, i: int) -> bool {
        &&& self.children@[i].elements@.len() < B
        &&& i > 0
        &&& self.children@[i - 1].elements@.len() >= B
    }

    /// Whether a removal below child `i` starts by moving an element over
    /// from the right sibling: the child holds fewer than `B` elements, no
    /// sibling to its left has one to spare, and the sibling to its right
    /// has.
    pub open spec fn borrows_from_right(self, i: int) -> bool {
        &&& self.children@[i].elements@.len() < B
        &&& !self.borrows_from_left(i)
        &&& i + 1 < self.children@.len()
        &&& self.children@[i + 1].elements@.len() >= B
    }

    /// Whether the node's own element `i`, when it is removed, has its
    /// place taken by its predecessor: the child before it has an element
    /// to spare.
    pub open spec fn takes_predecessor(self, i: int) -> bool {
        self.children@[i].elements@.len() >= B
    }

    /// Whether the node's own element `i`, when it is removed, has its
    /// place taken by its successor: the child before it has no element to
    /// spare, and the child behind it has.
    pub open spec fn takes_successor(self, i: int) -> bool {
        &&& self.children@[i].elements@.len() < B
        &&& self.children@[i + 1].elements@.len() >= B
    }

    /// Whether the node is an internal node that cannot lose an element
    /// without losing its last: it holds one element, and its two children
    /// hold `B - 1` elements each.
    pub open spec fn is_minimal(self) -> bool {
        &&& self.children@.len() == 2
        &&& self.children@[0].elements@.len() == B - 1
        &&& self.children@[1].elements@.len() == B - 1
    }

    /// Whether the two subtrees have the same shape: node by node, the same
    /// cached length, as many elements and as many children.
    pub open spec fn same_shape(self, other: Self) -> bool
        decreases self,
    {
        &&& self.length == other.length
        &&& self.elements@.len() == other.elements@.len()
        &&& self.children@.len() == other.children@.len()
        &&& forall|i: int|
            0 <= i < self.children@.len() ==> (#[trigger] self.children@[i]).same_shape(
                other.children@[i],
            )
    }

    /// What `count` asks of a node: the shape of a leaf or of an internal
    /// node, children whose cached lengths are right, and a subtree small
    /// enough for its size to be a `usize`.
    pub open spec fn counted(self) -> bool {
        &&& (self.children@.len() == 0 || self.children@.len() == self.elements@.len() + 1)
        &&& forall|i: int|
            0 <= i < self.children@.len() ==> (#[trigger] self.children@[i]).length
                == self.children@[i]@.len()
        &&& self@.len() <= usize::MAX
    }

    /// An empty leaf.
    pub fn new() -> (node: Self)
        ensures
            node.elements@ == Seq::<T>::empty(),
            node.children@ == Seq::<Self>::empty(),
            node.length == 0,
    {
        Self { elements: Vec::new(), children: Vec::new(), length: 0 }
    }

    /// The cached number of elements in the subtree.
    pub fn len(&self) -> (len: usize)
        ensures
            len == self.length,
    {
        self.length
    }

    /// Whether the node has no children.
    pub fn is_leaf(&self) -> (leaf: bool)
        ensures
            leaf == (self.children@.len() == 0),
    {
        self.children.is_empty()
    }

    /// Whether the node holds as many elements as a node can, `2 * B - 1`.
    pub fn is_full(&self) -> (full: bool)
        requires
            valid_degree(B),
        ensures
            full == (self.elements@.len() == 2 * B - 1),
    {
        let max: usize = 2 * B - 1;
        self.elements.len() == max
    }

    /// Finds the child in whose range `index` falls, and `index` counted
    /// from the start of that child. The range of a child includes the
    /// position just behind its last element, where the node's own element
    /// stands, or the end of the subtree. There is no such child for an
    /// index beyond the end of the subtree.
    pub fn find_child_index(&self, index: usize) -> (found: Option<(usize, usize)>)
        requires
            self.inv(),
            self.children@.len() > 0,
        ensures
            index > self@.len() ==> found is None,
            index <= self@.len() ==> found is Some,
            found matches Some(place) ==> place.0 < self.children@.len() && place.1
                <= self.children@[place.0 as int]@.len() && index == self.before(
                place.0 as int,
            ).len() + place.1,
            found matches Some(place) ==> self.locate(index as int) == (
                place.0 as int,
                place.1 as int,
            ),
    {
        if index > self.length {
            return None;
        }
        let mut cumulative_len: usize = 0;
        let mut child_index: usize = 0;
        loop
            invariant
                self.inv(),
                index <= self@.len(),
                child_index < self.children@.len(),
                cumulative_len == self.before(child_index as int).len(),
                cumulative_len <= index,
            decreases self.children@.len() - child_index,
        {
            proof {
                self.lemma_view_split(child_index as int);
                self.lemma_inv_child(child_index as int);
            }
            let child_len = self.children[child_index].len();
            if cumulative_len + child_len >= index {
                proof {
                    self.lemma_locate(
                        index as int,
                        child_index as int,
                        index - cumulative_len,
                    );
                }
                return Some((child_index, index - cumulative_len));
            }
            cumulative_len += child_len + 1;
            child_index += 1;
        }
    }

    /// The element at position `index` of the subtree, if the position lies
    /// within it.
    pub fn get(&self, index: usize) -> (element: Option<&T>)
        requires
            self.inv(),
        ensures
            index < self@.len() ==> element == Some(&self@[index as int]),
            index >= self@.len() ==> element is None,
        decreases self,
    {
        if self.is_leaf() {
            if index < self.elements.len() {
                Some(&self.elements[index])
            } else {
                None
            }
        } else {
            match self.find_child_index(index) {
                Some((child_index, sub_index)) => {
                    proof {
                        self.lemma_view_split(child_index as int);
                        self.lemma_inv_child(child_index as int);
                    }
                    if sub_index == self.children[child_index].len() {
                        if child_index < self.elements.len() {
                            Some(&self.elements[child_index])
                        } else {
                            None
                        }
                    } else {
                        self.children[child_index].get(sub_index)
                    }
                },
                None => None,
            }
        }
    }

    /// Puts `element` at position `index` and hands back the element that
    /// stood there, or hands `element` back if the position does not lie
    /// within the subtree. The shape of the subtree stays as it is.
    pub fn set(&mut self, index: usize, element: T) -> (result: Result<T, T>)
        requires
            old(self).inv(),
        ensures
            final(self).inv(),
            final(self).height() == old(self).height(),
            final(self).same_shape(*old(self)),
            index < old(self)@.len() ==> result == Ok::<T, T>(old(self)@[index as int])
                && final(self)@ == old(self)@.update(index as int, element),
            index >= old(self)@.len() ==> result == Err::<T, T>(element)
                && *final(self) == *old(self),
        decreases *old(self),
    {
        let mut element = element;
        proof {
            self.lemma_same_shape_reflexive();
        }
        if self.is_leaf() {
            if index < self.elements.len() {
                core::mem::swap(&mut self.elements[index], &mut element);
                Ok(element)
            } else {
                Err(element)
            }
        } else {
            match self.find_child_index(index) {
                Some((child_index, sub_index)) => {
                    proof {
                        self.lemma_view_split(child_index as int);
                        self.lemma_inv_child(child_index as int);
                    }
                    if sub_index == self.children[child_index].len() {
                        if child_index < self.elements.len() {
                            core::mem::swap(&mut self.elements[child_index], &mut element);
                            proof {
                                old(self).lemma_element_replaced(*self, child_index as int);
                            }
                            Ok(element)
                        } else {
                            Err(element)
                        }
                    } else {
                        let result = self.children[child_index].set(sub_index, element);
                        proof {
                            old(self).lemma_written_in_child(
                                *self,
                                child_index as int,
                                sub_index as int,
                            );
                        }
                        result
                    }
                },
                None => Err(element),
            }
        }
    }

    /// Lends the element at position `index` for writing, if the position
    /// lies within the subtree. The shape of the subtree stays as it is.
    pub fn get_mut(&mut self, index: usize) -> (element: Option<&mut T>)
        requires
            old(self).inv(),
        ensures
            final(self).inv(),
            final(self).height() == old(self).height(),
            final(self).same_shape(*old(self)),
            (match element {
                Some(element) => index < old(self)@.len() && *element == old(self)@[index as int]
                    && final(self)@ == old(self)@.update(index as int, *final(element)),
                None => index >= old(self)@.len() && *final(self) == *old(self),
            }),
        decreases *old(self),
    {
        proof {
            self.lemma_same_shape_reflexive();
        }
        if self.is_leaf() {
            if index < self.elements.len() {
                Some(&mut self.elements[index])
            } else {
                None
            }
        } else {
            match self.find_child_index(index) {
                Some((child_index, sub_index)) => {
                    proof {
                        self.lemma_view_split(child_index as int);
                        self.lemma_inv_child(child_index as int);
                    }
                    if sub_index == self.children[child_index].len() {
                        if child_index < self.elements.len() {
                            proof {
                                // Whatever is written through the reference,
                                // the node that results differs in this one
                                // element.
                                assert forall|new: Self|
                                    #![trigger new.view()]
                                    #![trigger new.inv()]
                                    #![trigger new.height()]
                                    #![trigger new.same_shape(*self)]
                                    self.written_at_element(
                                        new,
                                        child_index as int,
                                    ) implies new.inv() && new.view() == self@.update(
                                    index as int,
                                    new.elements@[child_index as int],
                                ) && new.height() == self.height() && new.same_shape(*self) by {
                                    self.lemma_element_replaced(new, child_index as int);
                                }
                            }
                            Some(&mut self.elements[child_index])
                        } else {
                            None
                        }
                    } else {
                        proof {
                            // Whatever is written through the reference, the
                            // node that results differs in one element below
                            // this child.
                            assert forall|new: Self|
                                #![trigger new.view()]
                                #![trigger new.inv()]
                                #![trigger new.height()]
                                #![trigger new.same_shape(*self)]
                                self.written_in_child(
                                    new,
                                    child_index as int,
                                    sub_index as int,
                                ) implies new.inv() && new.view() == self@.update(
                                index as int,
                                new.children@[child_index as int]@[sub_index as int],
                            ) && new.height() == self.height() && new.same_shape(*self) by {
                                self.lemma_written_in_child(
                                    new,
                                    child_index as int,
                                    sub_index as int,
                                );
                            }
                        }
                        self.children[child_index].get_mut(sub_index)
                    }
                },
                None => None,
            }
        }
    }

    /// The number of elements in the subtree, summed from the node's own
    /// elements and the cached lengths of its children.
    pub fn count(&self) -> (n: usize)
        requires
            self.counted(),
        ensures
            n == self@.len(),
    {
        let mut n: usize = self.elements.len();
        let mut i: usize = 0;
        proof {
            if self.children@.len() > 0 {
                lemma_join_len(self.child_views(), self.elements@);
            }
        }
        while i < self.children.len()
            invariant
                self.counted(),
                i <= self.children@.len(),
                n == self.elements@.len() + subs_len(self.child_views(), i as int),
                self.children@.len() > 0 ==> self@.len() == subs_len(
                    self.child_views(),
                    self.children@.len() as int,
                ) + self.elements@.len(),
            decreases self.children@.len() - i,
        {
            proof {
                lemma_subs_len_mono(self.child_views(), i + 1, self.children@.len() as int);
            }
            n += self.children[i].len();
            i += 1;
        }
        n
    }

    /// Splits the full child `full_child_index` into two children of `B - 1`
    /// elements each, and moves its middle element up between them.
    pub fn split_child(&mut self, full_child_index: usize)
        requires
            old(self).inv(),
            full_child_index < old(self).children@.len(),
            old(self).elements@.len() < 2 * B - 1,
            old(self).children@[full_child_index as int].elements@.len() == 2 * B - 1,
        ensures
            final(self).inv(),
            final(self)@ == old(self)@,
            final(self).height() == old(self).height(),
            final(self).elements@ == old(self).elements@.insert(
                full_child_index as int,
                old(self).children@[full_child_index as int].elements@[B - 1],
            ),
            final(self).children@.len() == old(self).children@.len() + 1,
            final(self).before(full_child_index as int) == old(self).before(
                full_child_index as int,
            ),
            old(self).children@[full_child_index as int]@
                == final(self).children@[full_child_index as int]@
                + seq![old(self).children@[full_child_index as int].elements@[B - 1]]
                + final(self).children@[full_child_index + 1]@,
            final(self).children@[full_child_index as int].elements@
                == old(self).children@[full_child_index as int].elements@.take(B - 1),
            final(self).children@[full_child_index + 1].elements@
                == old(self).children@[full_child_index as int].elements@.skip(B as int),
            old(self).children@[full_child_index as int].children@.len() == 0
                ==> final(self).children@[full_child_index as int].children@.len() == 0
                && final(self).children@[full_child_index + 1].children@.len() == 0,
            old(self).children@[full_child_index as int].children@.len() > 0
                ==> final(self).children@[full_child_index as int].children@
                == old(self).children@[full_child_index as int].children@.take(B as int),
            old(self).children@[full_child_index as int].children@.len() > 0
                ==> final(self).children@[full_child_index + 1].children@
                == old(self).children@[full_child_index as int].children@.skip(B as int),
            forall|j: int|
                0 <= j < full_child_index ==> final(self).children@[j] == old(self).children@[j],
            forall|j: int|
                full_child_index < j < old(self).children@.len() ==> final(self).children@[j + 1]
                    == old(self).children@[j],
    {
        let ghost full = self.children@[full_child_index as int];
        proof {
            self.lemma_inv_child(full_child_index as int);
            self.lemma_inv_child(0);
            self.lemma_view_split(full_child_index as int);
        }
        let mut successor_sibling = BTreeListNode::new();
        let full_child = &mut self.children[full_child_index];
        successor_sibling.elements = full_child.elements.split_off(B);
        if !full_child.is_leaf() {
            successor_sibling.children = full_child.children.split_off(B);
        }
        let middle = full_child.elements.pop().unwrap();
        proof {
            // The two halves are in shape to be counted.
            assert(full_child.elements@ =~= full.elements@.subrange(0, B - 1));
            full.lemma_halves(*full_child, successor_sibling);
        }
        full_child.length = full_child.count();
        successor_sibling.length = successor_sibling.count();
        proof {
            // With their lengths cached they meet the invariant.
            full.lemma_halves(*full_child, successor_sibling);
        }
        let ghost left = *full_child;
        let ghost right = successor_sibling;
        proof {
            assert(left.elements@ =~= full.elements@.take(B - 1));
            assert(right.elements@ =~= full.elements@.skip(B as int));
            if full.children@.len() > 0 {
                assert(left.children@ =~= full.children@.take(B as int));
                assert(right.children@ =~= full.children@.skip(B as int));
            }
        }
        self.children.insert(full_child_index + 1, successor_sibling);
        self.elements.insert(full_child_index, middle);
        proof {
            old(self).lemma_split_done(*self, full_child_index as int, left, right);
        }
    }

    /// Inserts `element` at position `index` of the subtree of a node that
    /// is not full. A full child on the way down is split first. An index
    /// beyond the end of the subtree has the element handed back, and the
    /// node left as it was.
    pub fn insert_into_non_full_node(&mut self, index: usize, element: T) -> (result: Result<
        (),
        T,
    >)
        requires
            old(self).inv(),
            old(self).elements@.len() < 2 * B - 1,
            index <= old(self)@.len() ==> old(self)@.len() < usize::MAX,
        ensures
            final(self).inv(),
            final(self).height() == old(self).height(),
            final(self).elements@.len() >= old(self).elements@.len(),
            index <= old(self)@.len() ==> result == Ok::<(), T>(())
                && final(self)@ == old(self)@.insert(index as int, element)
                && final(self).length == old(self).length + 1,
            index <= old(self)@.len() ==> final(self).elements@.len() == old(self).elements@.len()
                + (if old(self).children@.len() == 0 || old(self).splits_for(index as int) {
                1int
            } else {
                0int
            }),
            index <= old(self)@.len() && old(self).children@.len() == 0 ==> final(self).elements@
                == old(self).elements@.insert(index as int, element),
            index <= old(self)@.len() && old(self).children@.len() > 0 && !old(self).splits_for(
                index as int,
            ) ==> final(self).elements@ == old(self).elements@ && final(self).children@.len()
                == old(self).children@.len(),
            forall|j: int|
                index <= old(self)@.len() && !old(self).splits_for(index as int) && 0 <= j
                    < old(self).children@.len() && j != old(self).locate(index as int).0
                    ==> final(self).children@[j] == old(self).children@[j],
            index <= old(self)@.len() && old(self).splits_for(index as int)
                ==> final(self).elements@ == old(self).elements@.insert(
                old(self).locate(index as int).0,
                old(self).children@[old(self).locate(index as int).0].elements@[B - 1],
            ) && final(self).children@.len() == old(self).children@.len() + 1,
            index > old(self)@.len() ==> result == Err::<(), T>(element)
                && *final(self) == *old(self),
        decreases old(self).height(),
    {
        if self.is_leaf() {
            if index <= self.elements.len() {
                self.length += 1;
                self.elements.insert(index, element);
                Ok(())
            } else {
                Err(element)
            }
        } else {
            match self.find_child_index(index) {
                Some((child_index, sub_index)) => {
                    let mut child_index = child_index;
                    let mut sub_index = sub_index;
                    proof {
                        self.lemma_inv_child(child_index as int);
                    }
                    if self.children[child_index].is_full() {
                        let ghost first = child_index as int;
                        let ghost first_sub = sub_index as int;
                        self.split_child(child_index);
                        // The child structure has changed, so the index is
                        // looked up again.
                        match self.find_child_index(index) {
                            Some(found) => {
                                child_index = found.0;
                                sub_index = found.1;
                                proof {
                                    old(self).lemma_found_after_split(
                                        *self,
                                        first,
                                        first_sub,
                                        found.0 as int,
                                        found.1 as int,
                                    );
                                }
                            },
                            None => {
                                return Err(element);
                            },
                        }
                    }
                    let ghost mid = *self;
                    proof {
                        mid.lemma_inv_child(child_index as int);
                        mid.lemma_view_split(child_index as int);
                    }
                    match self.children[child_index].insert_into_non_full_node(
                        sub_index,
                        element,
                    ) {
                        Ok(()) => {},
                        Err(element) => {
                            return Err(element);
                        },
                    }
                    self.length += 1;
                    proof {
                        mid.lemma_inserted_in_child(
                            *self,
                            child_index as int,
                            sub_index as int,
                            element,
                        );
                    }
                    Ok(())
                },
                None => Err(element),
            }
        }
    }

    /// The number of positions of the subtree that lie before child
    /// `child_index`.
    pub fn cumulative_index(&self, child_index: usize) -> (total: usize)
        requires
            self.counted(),
            child_index < self.children@.len(),
        ensures
            total == self.before(child_index as int).len(),
    {
        let mut total: usize = 0;
        let mut i: usize = 0;
        proof {
            self.lemma_view_split(child_index as int);
            lemma_before_len(self.child_views(), self.elements@, child_index as int);
        }
        while i < child_index
            invariant
                self.counted(),
                i <= child_index < self.children@.len(),
                total == self.before(i as int).len(),
                self.before(child_index as int).len() <= usize::MAX,
                self.before(child_index as int).len() == subs_len(
                    self.child_views(),
                    child_index as int,
                ) + child_index,
            decreases child_index - i,
        {
            proof {
                lemma_before_len(self.child_views(), self.elements@, i + 1);
                lemma_subs_len_mono(self.child_views(), i + 1, child_index as int);
            }
            total += self.children[i].len() + 1;
            i += 1;
        }
        total
    }

    /// Takes the element at position `index` out of a leaf, if the position
    /// lies within it.
    pub fn remove_from_leaf(&mut self, index: usize) -> (removed: Option<T>)
        requires
            old(self).inv(),
            old(self).children@.len() == 0,
        ensures
            final(self).inv(),
            final(self).height() == old(self).height(),
            index < old(self)@.len() ==> removed == Some(old(self)@[index as int])
                && final(self)@ == old(self)@.remove(index as int)
                && final(self).elements@.len() == old(self).elements@.len() - 1,
            index >= old(self)@.len() ==> removed is None && *final(self) == *old(self),
    {
        if index < self.elements.len() {
            self.length -= 1;
            Some(self.elements.remove(index))
        } else {
            None
        }
    }

    /// Appends `middle` and then all of `successor_sibling` to this node.
    pub fn merge(&mut self, middle: T, successor_sibling: BTreeListNode<T, B>)
        requires
            old(self).inv(),
            successor_sibling.inv(),
            old(self).height() == successor_sibling.height(),
            old(self).elements@.len() == B - 1,
            successor_sibling.elements@.len() == B - 1,
            old(self)@.len() + successor_sibling@.len() + 1 <= usize::MAX,
        ensures
            final(self).inv(),
            final(self)@ == old(self)@ + seq![middle] + successor_sibling@,
            final(self).height() == old(self).height(),
            final(self).elements@ == old(self).elements@ + seq![middle]
                + successor_sibling.elements@,
            final(self).children@ == old(self).children@ + successor_sibling.children@,
            final(self).length == old(self).length + successor_sibling.length + 1,
            final(self).elements@.len() == 2 * B - 1,
    {
        let mut successor_sibling = successor_sibling;
        let ghost successor = successor_sibling;
        self.elements.push(middle);
        self.elements.append(&mut successor_sibling.elements);
        self.children.append(&mut successor_sibling.children);
        self.length += successor_sibling.length + 1;
        proof {
            assert(self.elements@ =~= old(self).elements@ + seq![middle] + successor.elements@);
            old(self).lemma_merged(middle, successor, *self);
        }
    }

    /// Merges child `i`, element `i` and child `i + 1` into one full child
    /// at `i`. The two children hold `B - 1` elements each.
    pub fn merge_children(&mut self, i: usize)
        requires
            old(self).inv(),
            i + 1 < old(self).children@.len(),
            old(self).children@[i as int].elements@.len() == B - 1,
            old(self).children@[i + 1].elements@.len() == B - 1,
        ensures
            final(self).inv(),
            final(self)@ == old(self)@,
            final(self).height() == old(self).height(),
            final(self).elements@.len() == old(self).elements@.len() - 1,
            final(self).before(i as int) == old(self).before(i as int),
            final(self).children@[i as int]@ == old(self).children@[i as int]@
                + seq![old(self).elements@[i as int]] + old(self).children@[i + 1]@,
            final(self).children@[i as int].elements@.len() == 2 * B - 1,
            final(self).elements@ == old(self).elements@.remove(i as int),
            final(self).children@[i as int].elements@ == old(self).children@[i as int].elements@
                + seq![old(self).elements@[i as int]] + old(self).children@[i + 1].elements@,
            final(self).children@[i as int].children@ == old(self).children@[i as int].children@
                + old(self).children@[i + 1].children@,
            forall|j: int| 0 <= j < i ==> final(self).children@[j] == old(self).children@[j],
            forall|j: int|
                i < j < final(self).children@.len() ==> final(self).children@[j]
                    == old(self).children@[j + 1],
    {
        proof {
            self.lemma_inv_child(i as int);
            self.lemma_inv_child(i + 1);
            self.lemma_view_split_pair(i as int);
        }
        let middle = self.elements.remove(i);
        let successor = self.children.remove(i + 1);
        self.children[i].merge(middle, successor);
        proof {
            old(self).lemma_merge_done(*self, i as int);
        }
    }

    /// Moves the last element of child `child_index - 1` up into this node
    /// and the element it replaces down to the front of child
    /// `child_index`; the last child of the one goes over to the other.
    pub fn rotate_right(&mut self, child_index: usize)
        requires
            old(self).inv(),
            0 < child_index < old(self).children@.len(),
            old(self).children@[child_index - 1].elements@.len() >= B,
            old(self).children@[child_index as int].elements@.len() < B,
        ensures
            final(self).inv(),
            final(self)@ == old(self)@,
            final(self).height() == old(self).height(),
            final(self).elements@.len() == old(self).elements@.len(),
            final(self).children@.len() == old(self).children@.len(),
            final(self).children@[child_index as int].elements@.len() == B,
            final(self).children@[child_index - 1].elements@
                == old(self).children@[child_index - 1].elements@.drop_last(),
            final(self).elements@ == old(self).elements@.update(
                child_index - 1,
                old(self).children@[child_index - 1].elements@.last(),
            ),
            final(self).children@[child_index as int].elements@
                == seq![old(self).elements@[child_index - 1]]
                + old(self).children@[child_index as int].elements@,
            old(self).children@[child_index as int].children@.len() == 0
                ==> final(self).children@[child_index - 1].children@.len() == 0
                && final(self).children@[child_index as int].children@.len() == 0,
            old(self).children@[child_index as int].children@.len() > 0
                ==> final(self).children@[child_index - 1].children@
                == old(self).children@[child_index - 1].children@.drop_last(),
            old(self).children@[child_index as int].children@.len() > 0
                ==> final(self).children@[child_index as int].children@
                == seq![old(self).children@[child_index - 1].children@.last()]
                + old(self).children@[child_index as int].children@,
            forall|j: int|
                0 <= j < old(self).children@.len() && j != child_index - 1 && j != child_index
                    ==> final(self).children@[j] == old(self).children@[j],
            final(self).before(child_index as int).len() <= old(self).before(
                child_index as int,
            ).len(),
            final(self).before(child_index as int).len()
                + final(self).children@[child_index as int]@.len() == old(self).before(
                child_index as int,
            ).len() + old(self).children@[child_index as int]@.len(),
    {
        proof {
            self.lemma_inv_child(child_index - 1);
            self.lemma_inv_child(child_index as int);
            self.lemma_pair_lengths(child_index - 1);
        }
        let last_element = self.children[child_index - 1].elements.pop().unwrap();
        self.children[child_index - 1].length -= 1;
        let mut parent_element = last_element;
        core::mem::swap(&mut self.elements[child_index - 1], &mut parent_element);
        self.children[child_index].elements.insert(0, parent_element);
        self.children[child_index].length += 1;
        if let Some(last_child) = self.children[child_index - 1].children.pop() {
            proof {
                old(self).children@[child_index - 1].lemma_inv_child(
                    old(self).children@[child_index - 1].children@.len() - 1,
                );
            }
            self.children[child_index - 1].length -= last_child.len();
            self.children[child_index].length += last_child.len();
            self.children[child_index].children.insert(0, last_child);
        }
        proof {
            assert(self.children@ =~= old(self).children@.update(
                child_index - 1,
                self.children@[child_index - 1],
            ).update(child_index as int, self.children@[child_index as int]));
            old(self).lemma_rotated_right(*self, child_index - 1);
        }
    }

    /// Moves the first element of child `child_index + 1` up into this node
    /// and the element it replaces down to the back of child `child_index`;
    /// the first child of the one goes over to the other.
    pub fn rotate_left(&mut self, child_index: usize)
        requires
            old(self).inv(),
            child_index + 1 < old(self).children@.len(),
            old(self).children@[child_index + 1].elements@.len() >= B,
            old(self).children@[child_index as int].elements@.len() < B,
        ensures
            final(self).inv(),
            final(self)@ == old(self)@,
            final(self).height() == old(self).height(),
            final(self).elements@.len() == old(self).elements@.len(),
            final(self).children@.len() == old(self).children@.len(),
            final(self).children@[child_index as int].elements@.len() == B,
            final(self).children@[child_index + 1].elements@
                == old(self).children@[child_index + 1].elements@.drop_first(),
            final(self).elements@ == old(self).elements@.update(
                child_index as int,
                old(self).children@[child_index + 1].elements@[0],
            ),
            final(self).children@[child_index as int].elements@
                == old(self).children@[child_index as int].elements@.push(
                old(self).elements@[child_index as int],
            ),
            old(self).children@[child_index as int].children@.len() == 0
                ==> final(self).children@[child_index + 1].children@.len() == 0
                && final(self).children@[child_index as int].children@.len() == 0,
            old(self).children@[child_index as int].children@.len() > 0
                ==> final(self).children@[child_index + 1].children@
                == old(self).children@[child_index + 1].children@.drop_first(),
            old(self).children@[child_index as int].children@.len() > 0
                ==> final(self).children@[child_index as int].children@
                == old(self).children@[child_index as int].children@.push(
                old(self).children@[child_index + 1].children@[0],
            ),
            forall|j: int|
                0 <= j < old(self).children@.len() && j != child_index && j != child_index + 1
                    ==> final(self).children@[j] == old(self).children@[j],
            final(self).before(child_index as int) == old(self).before(child_index as int),
            final(self).children@[child_index as int]@.len()
                >= old(self).children@[child_index as int]@.len(),
    {
        proof {
            self.lemma_inv_child(child_index as int);
            self.lemma_inv_child(child_index + 1);
            self.lemma_pair_lengths(child_index as int);
        }
        let first_element = self.children[child_index + 1].elements.remove(0);
        self.children[child_index + 1].length -= 1;
        let mut parent_element = first_element;
        core::mem::swap(&mut self.elements[child_index], &mut parent_element);
        self.children[child_index].length += 1;
        self.children[child_index].elements.push(parent_element);
        if !self.children[child_index + 1].is_leaf() {
            proof {
                old(self).children@[child_index + 1].lemma_inv_child(0);
            }
            let first_child = self.children[child_index + 1].children.remove(0);
            self.children[child_index + 1].length -= first_child.len();
            self.children[child_index].length += first_child.len();
            self.children[child_index].children.push(first_child);
        }
        proof {
            assert(self.children@ =~= old(self).children@.update(
                child_index as int,
                self.children@[child_index as int],
            ).update(child_index + 1, self.children@[child_index + 1]));
            old(self).lemma_rotated_left(*self, child_index as int);
        }
    }

    /// Takes this node's own element `element_index`, which stands at
    /// position `index` of the subtree, out of the tree. Its place is taken
    /// by its predecessor or its successor where the child that holds that
    /// one has an element to spare; else the element is merged with the two
    /// children around it and removed from the merged child.
    pub fn remove_element_from_non_leaf(&mut self, index: usize, element_index: usize) -> (removed:
        Option<T>)
        requires
            old(self).inv(),
            old(self).children@.len() > 0,
            element_index < old(self).elements@.len(),
            index == old(self).before(element_index as int).len()
                + old(self).children@[element_index as int]@.len(),
        ensures
            final(self).inv(),
            final(self)@ == old(self)@.remove(index as int),
            removed == Some(old(self)@[index as int]),
            removed == Some(old(self).elements@[element_index as int]),
            final(self).height() == old(self).height(),
            final(self).elements@.len() == old(self).elements@.len()
                - (if old(self).merges_at_element(element_index as int) {
                1int
            } else {
                0int
            }),
            old(self).takes_predecessor(element_index as int) ==> final(self).elements@
                == old(self).elements@.update(element_index as int, old(self)@[index - 1]),
            old(self).takes_successor(element_index as int) ==> final(self).elements@
                == old(self).elements@.update(element_index as int, old(self)@[index + 1]),
            old(self).takes_predecessor(element_index as int)
                ==> final(self).children@[element_index + 1]
                == old(self).children@[element_index + 1],
            old(self).takes_successor(element_index as int)
                ==> final(self).children@[element_index as int]
                == old(self).children@[element_index as int],
            old(self).merges_at_element(element_index as int) ==> final(self).elements@
                == old(self).elements@.remove(element_index as int),
        decreases old(self).height(), 0int,
    {
        proof {
            self.lemma_inv_counted();
            self.lemma_inv_child(element_index as int);
            self.lemma_inv_child(element_index + 1);
            self.lemma_view_split_pair(element_index as int);
            self.lemma_pair_lengths(element_index as int);
            lemma_before_len(self.child_views(), self.elements@, element_index as int);
            lemma_before_len(self.child_views(), self.elements@, element_index + 1);
        }
        if self.children[element_index].elements.len() >= B {
            let total_index = self.cumulative_index(element_index);
            self.length -= 1;
            let mut predecessor = self.children[element_index].remove(index - 1 - total_index)?;
            core::mem::swap(&mut self.elements[element_index], &mut predecessor);
            proof {
                old(self).lemma_replaced_by_predecessor(*self, element_index as int);
            }
            Some(predecessor)
        } else if self.children[element_index + 1].elements.len() >= B {
            let total_index = self.cumulative_index(element_index + 1);
            self.length -= 1;
            let mut successor = self.children[element_index + 1].remove(
                index + 1 - total_index,
            )?;
            core::mem::swap(&mut self.elements[element_index], &mut successor);
            proof {
                old(self).lemma_replaced_by_successor(*self, element_index as int);
            }
            Some(successor)
        } else {
            self.merge_children(element_index);
            let ghost merged = *self;
            proof {
                merged.lemma_inv_counted();
                merged.lemma_inv_child(element_index as int);
                merged.lemma_view_split(element_index as int);
            }
            let total_index = self.cumulative_index(element_index);
            self.length -= 1;
            let removed = self.children[element_index].remove(index - total_index);
            proof {
                merged.lemma_removed_in_child(
                    *self,
                    element_index as int,
                    index - total_index,
                );
            }
            removed
        }
    }

    /// Sees to it that the child at `child_index` holds at least `B`
    /// elements, so that one can be removed from its subtree. A child of
    /// `B - 1` elements is given one more: from its left sibling, else from
    /// its right sibling, where that one has an element to spare, else by
    /// merging it with its left sibling, or with its right sibling where it
    /// has none to the left. Returns the index at which the child, or the
    /// merged child, then stands.
    pub fn balance_child(&mut self, child_index: usize) -> (balanced_index: usize)
        requires
            old(self).inv(),
            old(self).elements@.len() >= 1,
            child_index < old(self).children@.len(),
        ensures
            final(self).inv(),
            final(self)@ == old(self)@,
            final(self).height() == old(self).height(),
            final(self).elements@.len() == old(self).elements@.len()
                - (if old(self).merges_at_child(child_index as int) {
                1int
            } else {
                0int
            }),
            balanced_index == (if old(self).merges_at_child(child_index as int) {
                Self::merge_place(child_index as int)
            } else {
                child_index as int
            }),
            old(self).merges_at_child(child_index as int) ==> final(self).elements@
                == old(self).elements@.remove(Self::merge_place(child_index as int)),
            old(self).merges_at_child(child_index as int)
                ==> final(self).children@[balanced_index as int].elements@
                == old(self).children@[balanced_index as int].elements@
                + seq![old(self).elements@[balanced_index as int]]
                + old(self).children@[balanced_index + 1].elements@,
            old(self).merges_at_child(child_index as int)
                ==> final(self).children@[balanced_index as int].children@
                == old(self).children@[balanced_index as int].children@
                + old(self).children@[balanced_index + 1].children@,
            forall|j: int|
                old(self).merges_at_child(child_index as int) && 0 <= j < Self::merge_place(
                    child_index as int,
                ) ==> final(self).children@[j] == old(self).children@[j],
            forall|j: int|
                old(self).merges_at_child(child_index as int) && Self::merge_place(
                    child_index as int,
                ) < j < final(self).children@.len() ==> final(self).children@[j]
                    == old(self).children@[j + 1],
            old(self).children@[child_index as int].elements@.len() >= B
                ==> *final(self) == *old(self),
            old(self).borrows_from_left(child_index as int) ==> final(self).children@[child_index
                - 1].elements@.len() == old(self).children@[child_index - 1].elements@.len() - 1,
            old(self).borrows_from_right(child_index as int) ==> final(self).children@[child_index
                + 1].elements@.len() == old(self).children@[child_index + 1].elements@.len() - 1,
            old(self).borrows_from_right(child_index as int) && child_index > 0
                ==> final(self).children@[child_index - 1] == old(self).children@[child_index
                - 1],
            old(self).borrows_from_left(child_index as int) && child_index + 1
                < old(self).children@.len() ==> final(self).children@[child_index + 1]
                == old(self).children@[child_index + 1],
            balanced_index < final(self).children@.len(),
            final(self).children@[balanced_index as int].elements@.len() >= B,
            final(self).before(balanced_index as int).len() <= old(self).before(
                child_index as int,
            ).len(),
            final(self).before(balanced_index as int).len()
                + final(self).children@[balanced_index as int]@.len() >= old(self).before(
                child_index as int,
            ).len() + old(self).children@[child_index as int]@.len(),
    {
        proof {
            self.lemma_inv_child(child_index as int);
            if child_index > 0 {
                self.lemma_inv_child(child_index - 1);
                lemma_before_len(self.child_views(), self.elements@, child_index as int);
                lemma_before_len(self.child_views(), self.elements@, child_index - 1);
            }
            if child_index + 1 < self.children@.len() {
                self.lemma_inv_child(child_index + 1);
            }
        }
        if self.children[child_index].elements.len() < B && (if child_index > 0 {
            self.children[child_index - 1].elements.len() < B
        } else {
            true
        }) && (if child_index + 1 < self.children.len() {
            self.children[child_index + 1].elements.len() < B
        } else {
            true
        }) {
            if child_index > 0 {
                self.merge_children(child_index - 1);
                return child_index - 1;
            } else {
                self.merge_children(child_index);
                return child_index;
            }
        } else if self.children[child_index].elements.len() < B {
            if child_index > 0 && self.children[child_index - 1].elements.len() >= B {
                self.rotate_right(child_index);
                return child_index;
            } else if child_index + 1 < self.children.len() && self.children[child_index
                + 1].elements.len() >= B {
                self.rotate_left(child_index);
                return child_index;
            }
        }
        child_index
    }

    /// Removes the element at position `index` of the subtree, which lies
    /// in the subtree of child `child_index`.
    pub fn remove_from_internal_child(&mut self, index: usize, child_index: usize) -> (removed:
        Option<T>)
        requires
            old(self).inv(),
            old(self).elements@.len() >= 1,
            child_index < old(self).children@.len(),
            old(self).before(child_index as int).len() <= index,
            index < old(self).before(child_index as int).len()
                + old(self).children@[child_index as int]@.len(),
        ensures
            final(self).inv(),
            final(self)@ == old(self)@.remove(index as int),
            removed == Some(old(self)@[index as int]),
            final(self).height() == old(self).height(),
            final(self).elements@.len() == old(self).elements@.len()
                - (if old(self).merges_at_child(child_index as int) {
                1int
            } else {
                0int
            }),
            old(self).merges_at_child(child_index as int) ==> final(self).elements@
                == old(self).elements@.remove(Self::merge_place(child_index as int)),
            forall|j: int|
                old(self).merges_at_child(child_index as int) && 0 <= j < Self::merge_place(
                    child_index as int,
                ) ==> final(self).children@[j] == old(self).children@[j],
            forall|j: int|
                old(self).merges_at_child(child_index as int) && Self::merge_place(
                    child_index as int,
                ) < j < final(self).children@.len() ==> final(self).children@[j]
                    == old(self).children@[j + 1],
            old(self).borrows_from_left(child_index as int) ==> final(self).children@[child_index
                - 1].elements@.len() == old(self).children@[child_index - 1].elements@.len() - 1,
            old(self).borrows_from_right(child_index as int) ==> final(self).children@[child_index
                + 1].elements@.len() == old(self).children@[child_index + 1].elements@.len() - 1,
            old(self).borrows_from_right(child_index as int) && child_index > 0
                ==> final(self).children@[child_index - 1] == old(self).children@[child_index
                - 1],
            old(self).borrows_from_left(child_index as int) && child_index + 1
                < old(self).children@.len() ==> final(self).children@[child_index + 1]
                == old(self).children@[child_index + 1],
        decreases old(self).height(), 0int,
    {
        let child_index = self.balance_child(child_index);
        let ghost balanced = *self;
        proof {
            balanced.lemma_inv_counted();
            balanced.lemma_inv_child(child_index as int);
            balanced.lemma_view_split(child_index as int);
        }
        self.length -= 1;
        let total_index = self.cumulative_index(child_index);
        let removed = self.children[child_index].remove(index - total_index);
        proof {
            balanced.lemma_removed_in_child(*self, child_index as int, index - total_index);
        }
        removed
    }

    /// Removes the element at position `index` of the subtree and hands it
    /// back, if the position lies within the subtree.
    pub fn remove(&mut self, index: usize) -> (removed: Option<T>)
        requires
            old(self).inv(),
            old(self).elements@.len() >= 1,
        ensures
            final(self).inv(),
            final(self).height() == old(self).height(),
            final(self).elements@.len() >= old(self).elements@.len() - 1,
            index < old(self)@.len() ==> removed == Some(old(self)@[index as int])
                && final(self)@ == old(self)@.remove(index as int),
            index >= old(self)@.len() ==> removed is None && *final(self) == *old(self),
            index < old(self)@.len() ==> final(self).elements@.len() == old(self).elements@.len()
                - (if old(self).sheds_for(index as int) {
                1int
            } else {
                0int
            }),
            index < old(self)@.len() && old(self).children@.len() == 0 ==> final(self).elements@
                == old(self).elements@.remove(index as int),
            index < old(self)@.len() && old(self).children@.len() == 2
                ==> final(self).elements@.len() == (if old(self).is_minimal() {
                0int
            } else {
                1int
            }),
        decreases old(self).height(), 1int,
    {
        if self.is_leaf() {
            self.remove_from_leaf(index)
        } else {
            match self.find_child_index(index) {
                Some((child_index, sub_index)) => {
                    proof {
                        self.lemma_inv_child(child_index as int);
                        self.lemma_view_split(child_index as int);
                    }
                    if sub_index == self.children[child_index].len() {
                        if child_index < self.elements.len() {
                            self.remove_element_from_non_leaf(index, child_index)
                        } else {
                            None
                        }
                    } else {
                        self.remove_from_internal_child(index, child_index)
                    }
                },
                None => None,
            }
        }
    }

    /// Counts the elements of the subtree afresh, node by node.
    pub fn check(&self) -> (n: usize)
        requires
            self.inv(),
        ensures
            n == self@.len(),
            n == self.length,
        decreases self,
    {
        let mut n: usize = self.elements.len();
        let mut i: usize = 0;
        proof {
            self.lemma_inv_counted();
            if self.children@.len() > 0 {
                lemma_join_len(self.child_views(), self.elements@);
            }
        }
        while i < self.children.len()
            invariant
                self.inv(),
                self.counted(),
                i <= self.children@.len(),
                n == self.elements@.len() + subs_len(self.child_views(), i as int),
                self.children@.len() > 0 ==> self@.len() == subs_len(
                    self.child_views(),
                    self.children@.len() as int,
                ) + self.elements@.len(),
            decreases self.children@.len() - i,
        {
            proof {
                lemma_subs_len_mono(self.child_views(), i + 1, self.children@.len() as int);
                self.lemma_inv_child(i as int);
            }
            n += self.children[i].check();
            i += 1;
        }
        n
    }

    /// Checks at run time whether the subtree meets the invariant, and
    /// returns the height of the node if it does.
    pub fn audit(&self) -> (height: Option<usize>)
        ensures
            height is Some <==> self.inv(),
            height matches Some(h) ==> h == self.height(),
        decreases self,
    {
        if B < 2 || B > usize::MAX / 2 {
            return None;
        }
        let max: usize = 2 * B - 1;
        if self.elements.len() > max {
            return None;
        }
        if self.children.len() == 0 {
            if self.length == self.elements.len() {
                return Some(0);
            } else {
                return None;
            }
        }
        if self.children.len() != self.elements.len() + 1 {
            return None;
        }
        let mut total: usize = self.elements.len();
        let mut child_height: usize = 0;
        let mut i: usize = 0;
        proof {
            lemma_join_len(self.child_views(), self.elements@);
        }
        while i < self.children.len()
            invariant
                valid_degree(B),
                self.elements@.len() <= 2 * B - 1,
                self.children@.len() == self.elements@.len() + 1,
                i <= self.children@.len(),
                total == self.elements@.len() + subs_len(self.child_views(), i as int),
                self@.len() == subs_len(self.child_views(), self.children@.len() as int)
                    + self.elements@.len(),
                forall|j: int|
                    0 <= j < i ==> {
                        &&& (#[trigger] self.children@[j]).inv()
                        &&& self.children@[j].elements@.len() >= B - 1
                        &&& self.children@[j].height() == child_height
                    },
            decreases self.children@.len() - i,
        {
            proof {
                lemma_subs_len_mono(self.child_views(), i + 1, self.children@.len() as int);
                if self.inv() {
                    self.lemma_inv_child(i as int);
                    self.lemma_inv_child(0);
                }
            }
            match self.children[i].audit() {
                None => {
                    return None;
                },
                Some(h) => {
                    if i == 0 {
                        child_height = h;
                    } else if h != child_height {
                        return None;
                    }
                },
            }
            if self.children[i].elements.len() < B - 1 {
                return None;
            }
            match total.checked_add(self.children[i].len()) {
                None => {
                    return None;
                },
                Some(sum) => {
                    total = sum;
                },
            }
            i += 1;
        }
        if total != self.length {
            return None;
        }
        proof {
            self.lemma_height_bound();
        }
        Some(child_height + 1)
    }
}

} // verus!
