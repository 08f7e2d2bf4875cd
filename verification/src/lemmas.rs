//! Facts about nodes: what the invariant says of every node of a tree, and
//! how the sequence that a subtree holds follows the changes made to its
//! nodes.
use crate::flatten::{
    lemma_after_agree, lemma_before_agree, lemma_before_len, lemma_join_concat, lemma_join_len,
    lemma_join_one, lemma_join_split, lemma_join_split_pair, lemma_subs_len_at_least,
    lemma_subs_len_mono, subs_len,
};
use crate::node::BTreeListNode;
use vstd::arithmetic::mul::lemma_mul_inequality;
use vstd::arithmetic::power::{lemma_pow0, pow};
use vstd::prelude::*;

verus! {

/// The fewest elements that a subtree of minimum degree `b` with `levels`
/// levels below its root can hold, where the root is not the root of the
/// whole tree: `b - 1` in each of its nodes, of which every internal one has
/// `b` children.
pub open spec fn min_size(b: int, levels: nat) -> int
    decreases levels,
{
    if levels == 0 {
        b - 1
    } else {
        b - 1 + b * min_size(b, (levels - 1) as nat)
    }
}

/// The fewest elements of a subtree grow with its height as the powers of
/// the minimum degree do.
pub proof fn lemma_min_size_is_power(b: int, levels: nat)
    ensures
        min_size(b, levels) + 1 == pow(b, levels + 1),
    decreases levels,
{
    reveal(pow);
    if levels == 0 {
        lemma_pow0(b);
    } else {
        lemma_min_size_is_power(b, (levels - 1) as nat);
        assert(b - 1 + b * (pow(b, levels) - 1) + 1 == b * pow(b, levels)) by (nonlinear_arith);
    }
}

impl<T, const B: usize> BTreeListNode<T, B> {
    /// Whether `path` leads from this node down to a node of its subtree:
    /// each of its numbers picks a child of the node reached so far.
    pub open spec fn has_path(self, path: Seq<int>) -> bool
        decreases path.len(),
    {
        path.len() == 0 || (0 <= path[0] < self.children@.len() && self.children@[path[0]].has_path(
            path.drop_first(),
        ))
    }

    /// The node of the subtree that `path` leads to.
    pub open spec fn descendant(self, path: Seq<int>) -> Self
        decreases path.len(),
    {
        if path.len() == 0 {
            self
        } else {
            self.children@[path[0]].descendant(path.drop_first())
        }
    }

    /// Every node that can be reached from a node that meets the invariant
    /// meets it too.
    pub proof fn lemma_descendant_inv(self, path: Seq<int>)
        requires
            self.inv(),
            self.has_path(path),
        ensures
            self.descendant(path).inv(),
        decreases path.len(),
    {
        if path.len() > 0 {
            self.lemma_inv_child(path[0]);
            self.children@[path[0]].lemma_descendant_inv(path.drop_first());
        }
    }

    /// The summed cached lengths of the first `i` children.
    pub open spec fn cached_sum(self, i: int) -> nat
        decreases i,
    {
        if i <= 0 {
            0
        } else {
            self.cached_sum(i - 1) + self.children@[i - 1].length as nat
        }
    }

    /// Whether every node of the subtree caches the number of elements
    /// below it: its own elements and what its children have cached.
    pub open spec fn lengths_exact(self) -> bool {
        forall|path: Seq<int>| #[trigger]
            self.has_path(path) ==> self.descendant(path).length == self.descendant(
                path,
            ).elements@.len() + self.descendant(path).cached_sum(
                self.descendant(path).children@.len() as int,
            )
    }

    /// Whether every node below this one holds between `B - 1` and
    /// `2 * B - 1` elements, this one at most `2 * B - 1`, and every
    /// internal node of the subtree has one child more than it has
    /// elements.
    pub open spec fn occupancy_holds(self) -> bool {
        forall|path: Seq<int>| #[trigger]
            self.has_path(path) ==> self.descendant(path).elements@.len() <= 2 * B - 1 && (
            path.len() > 0 ==> self.descendant(path).elements@.len() >= B - 1) && (
            self.descendant(path).children@.len() > 0 ==> self.descendant(path).children@.len()
                == self.descendant(path).elements@.len() + 1)
    }

    /// In a node that meets the invariant, what the children have cached
    /// is what their subtrees hold.
    pub proof fn lemma_cached_sum(self, i: int)
        requires
            self.inv(),
            0 <= i <= self.children@.len(),
        ensures
            self.cached_sum(i) == subs_len(self.child_views(), i),
        decreases i,
    {
        if i > 0 {
            self.lemma_cached_sum(i - 1);
            self.lemma_inv_child(i - 1);
        }
    }

    /// A subtree that meets the invariant caches exact lengths in every
    /// node and keeps every node within its bounds.
    pub proof fn lemma_inv_laws(self)
        requires
            self.inv(),
        ensures
            self.lengths_exact(),
            self.occupancy_holds(),
    {
        assert forall|path: Seq<int>| #[trigger] self.has_path(path) implies self.descendant(
            path,
        ).length == self.descendant(path).elements@.len() + self.descendant(path).cached_sum(
            self.descendant(path).children@.len() as int,
        ) by {
            self.lemma_cached_lengths(path);
        }
        assert forall|path: Seq<int>| #[trigger] self.has_path(path) implies self.descendant(
            path,
        ).elements@.len() <= 2 * B - 1 && (path.len() > 0 ==> self.descendant(
            path,
        ).elements@.len() >= B - 1) && (self.descendant(path).children@.len() > 0
            ==> self.descendant(path).children@.len() == self.descendant(path).elements@.len()
            + 1) by {
            self.lemma_occupancy(path);
        }
    }

    /// The cached length of every node that can be reached from a node that
    /// meets the invariant is the number of elements in the subtree of the
    /// node reached: its own elements and those of all nodes below it.
    pub proof fn lemma_cached_lengths(self, path: Seq<int>)
        requires
            self.inv(),
            self.has_path(path),
        ensures
            self.descendant(path).length == self.descendant(path)@.len(),
            self.descendant(path).length == self.descendant(path).elements@.len() + subs_len(
                self.descendant(path).child_views(),
                self.descendant(path).children@.len() as int,
            ),
            self.descendant(path).length == self.descendant(path).elements@.len()
                + self.descendant(path).cached_sum(self.descendant(path).children@.len() as int),
    {
        self.lemma_descendant_inv(path);
        let node = self.descendant(path);
        node.lemma_cached_sum(node.children@.len() as int);
        if node.children@.len() > 0 {
            lemma_join_len(node.child_views(), node.elements@);
        }
    }

    /// Every node below a node that meets the invariant holds between
    /// `B - 1` and `2 * B - 1` elements, and every internal node that can be
    /// reached has one child more than it has elements.
    pub proof fn lemma_occupancy(self, path: Seq<int>)
        requires
            self.inv(),
            self.has_path(path),
        ensures
            self.descendant(path).elements@.len() <= 2 * B - 1,
            path.len() > 0 ==> self.descendant(path).elements@.len() >= B - 1,
            self.descendant(path).children@.len() > 0 ==> self.descendant(path).children@.len()
                == self.descendant(path).elements@.len() + 1,
        decreases path.len(),
    {
        if path.len() > 0 {
            self.lemma_inv_child(path[0]);
            let child = self.children@[path[0]];
            if path.len() > 1 {
                child.lemma_occupancy(path.drop_first());
            } else {
                assert(child.descendant(path.drop_first()) == child);
            }
        }
    }

    /// A subtree that meets the invariant holds at least as many elements
    /// as it has levels below its root.
    pub proof fn lemma_height_bound(self)
        requires
            self.inv(),
        ensures
            self.height() <= self@.len(),
            self.elements@.len() >= 1 ==> self.height() + 1 <= self@.len(),
        decreases self.height(),
    {
        if self.children@.len() > 0 {
            self.lemma_inv_child(0);
            self.children@[0].lemma_height_bound();
            self.lemma_view_split(0);
            if self.elements@.len() >= 1 {
                assert(self.after(0).len() >= 1);
            }
        }
    }

    /// A subtree below the root holds at least `B - 1` elements in each of
    /// its nodes: with `h` levels below it, `B` to the power `h + 1`, less
    /// one, in all.
    pub proof fn lemma_min_size(self)
        requires
            self.inv(),
            self.elements@.len() >= B - 1,
        ensures
            self@.len() >= min_size(B as int, self.height()),
            min_size(B as int, self.height()) >= 1,
        decreases self.height(),
    {
        if self.children@.len() > 0 {
            let below = min_size(B as int, (self.height() - 1) as nat);
            let n = self.children@.len() as int;
            assert forall|j: int| 0 <= j < n implies (#[trigger] self.child_views()[j]).len()
                >= below by {
                self.lemma_inv_child(j);
                self.children@[j].lemma_min_size();
            }
            self.lemma_inv_child(0);
            self.children@[0].lemma_min_size();
            lemma_subs_len_at_least(self.child_views(), n, below);
            lemma_join_len(self.child_views(), self.elements@);
            lemma_mul_inequality(B as int, n, below);
            lemma_mul_inequality(1, B as int, below);
        }
    }

    /// A tree whose root holds an element has at least twice `B` to the
    /// power of its height, less one, elements: its height is at most the
    /// logarithm to base `B` of half its length plus one.
    pub proof fn lemma_height_is_logarithmic(self)
        requires
            self.inv(),
            self.elements@.len() >= 1,
        ensures
            self@.len() + 1 >= 2 * pow(B as int, self.height()),
    {
        if self.children@.len() > 0 {
            let levels = (self.height() - 1) as nat;
            let below = min_size(B as int, levels);
            let n = self.children@.len() as int;
            assert forall|j: int| 0 <= j < n implies (#[trigger] self.child_views()[j]).len()
                >= below by {
                self.lemma_inv_child(j);
                self.children@[j].lemma_min_size();
            }
            self.lemma_inv_child(0);
            self.children@[0].lemma_min_size();
            lemma_subs_len_at_least(self.child_views(), n, below);
            lemma_join_len(self.child_views(), self.elements@);
            lemma_min_size_is_power(B as int, levels);
            lemma_mul_inequality(2, n, below);
        } else {
            lemma_pow0(B as int);
        }
    }

    /// What the invariant of a node says of its child `i`.
    pub proof fn lemma_inv_child(self, i: int)
        requires
            self.inv(),
            0 <= i < self.children@.len(),
        ensures
            self.children@[i].inv(),
            self.children@[i].length == self.children@[i]@.len(),
            B - 1 <= self.children@[i].elements@.len() <= 2 * B - 1,
            self.children@[i].height() + 1 == self.height(),
            self.children@[i].children@.len() == 0 || self.children@[i].children@.len()
                == self.children@[i].elements@.len() + 1,
    {
        reveal_with_fuel(BTreeListNode::inv, 2);
    }

    /// The subtree's sequence is what lies before child `i`, then that
    /// child's sequence, then what lies after it.
    pub proof fn lemma_view_split(self, i: int)
        requires
            0 <= i < self.children@.len(),
        ensures
            self@ == self.before(i) + self.children@[i]@ + self.after(i),
            self.before(i).len() + self.children@[i]@.len() <= self@.len(),
    {
        lemma_join_split(self.child_views(), self.elements@, i);
    }

    /// Replacing child `i` alone leaves what lies before and after it as it
    /// was.
    pub proof fn lemma_child_replaced(self, new: Self, i: int)
        requires
            0 <= i < self.children@.len(),
            new.elements@ == self.elements@,
            new.children@.len() == self.children@.len(),
            forall|j: int|
                0 <= j < self.children@.len() && j != i ==> new.children@[j] == self.children@[j],
        ensures
            new.before(i) == self.before(i),
            new.after(i) == self.after(i),
            new@ == self.before(i) + new.children@[i]@ + self.after(i),
    {
        lemma_before_agree(new.child_views(), new.elements@, self.child_views(), self.elements@, i);
        lemma_after_agree(
            new.child_views(),
            new.elements@,
            i,
            self.child_views(),
            self.elements@,
            i,
        );
        new.lemma_view_split(i);
    }

    /// Whether `new` is this node with another element in the place of its
    /// own element `i`, and nothing else changed.
    pub open spec fn written_at_element(self, new: Self, i: int) -> bool {
        &&& new.elements@ == self.elements@.update(i, new.elements@[i])
        &&& new.children == self.children
        &&& new.length == self.length
    }

    /// Whether `new` is this node with another element in the place of the
    /// one at offset `sub` of child `i`, in a child that meets the
    /// invariant, and nothing else changed.
    pub open spec fn written_in_child(self, new: Self, i: int, sub: int) -> bool {
        &&& new.elements@ == self.elements@
        &&& new.length == self.length
        &&& new.children@ == self.children@.update(i, new.children@[i])
        &&& new.children@[i].inv()
        &&& new.children@[i]@ == self.children@[i]@.update(sub, new.children@[i]@[sub])
        &&& new.children@[i].height() == self.children@[i].height()
        &&& new.children@[i].same_shape(self.children@[i])
    }

    /// Every subtree has its own shape.
    pub proof fn lemma_same_shape_reflexive(self)
        ensures
            self.same_shape(self),
        decreases self,
    {
        assert forall|i: int| 0 <= i < self.children@.len() implies (
        #[trigger] self.children@[i]).same_shape(self.children@[i]) by {
            self.children@[i].lemma_same_shape_reflexive();
        }
    }

    /// Replacing element `i` alone changes the subtree's sequence at the
    /// position of that element alone.
    pub proof fn lemma_element_replaced(self, new: Self, i: int)
        requires
            self.inv(),
            0 <= i < self.elements@.len(),
            self.children@.len() > 0,
            self.written_at_element(new, i),
        ensures
            new@ == self@.update(
                (self.before(i).len() + self.children@[i]@.len()) as int,
                new.elements@[i],
            ),
            new.inv(),
            new.height() == self.height(),
            new.same_shape(self),
    {
        let cv = self.child_views();
        self.lemma_same_shape_reflexive();
        assert(new.child_views() == cv);
        lemma_join_split(cv, self.elements@, i);
        lemma_join_split(cv, new.elements@, i);
        lemma_before_agree(cv, new.elements@, cv, self.elements@, i);
        lemma_after_agree(cv, new.elements@, i + 1, cv, self.elements@, i + 1);
        assert(new@ =~= self@.update(
            (self.before(i).len() + self.children@[i]@.len()) as int,
            new.elements@[i],
        ));
    }

    /// Replacing one element in the subtree of child `i` changes the
    /// subtree's sequence at the position of that element alone.
    pub proof fn lemma_written_in_child(self, new: Self, i: int, sub: int)
        requires
            self.inv(),
            0 <= i < self.children@.len(),
            0 <= sub < self.children@[i]@.len(),
            self.written_in_child(new, i, sub),
        ensures
            new@ == self@.update(self.before(i).len() + sub, new.children@[i]@[sub]),
            new.inv(),
            new.height() == self.height(),
            new.same_shape(self),
    {
        assert forall|j: int| 0 <= j < new.children@.len() implies (
        #[trigger] new.children@[j]).same_shape(self.children@[j]) by {
            if j != i {
                self.children@[j].lemma_same_shape_reflexive();
            }
        }
        self.lemma_inv_child(i);
        self.lemma_view_split(i);
        self.lemma_child_replaced(new, i);
        assert(new@ =~= self@.update(self.before(i).len() + sub, new.children@[i]@[sub]));
        self.lemma_inv_kept(new, i);
    }

    /// A node whose child `i` alone was replaced by a node of the same
    /// height that meets the invariant and is not under-full, and whose
    /// cached length was adjusted, meets the invariant again.
    pub proof fn lemma_inv_kept(self, new: Self, i: int)
        requires
            self.inv(),
            0 <= i < self.children@.len(),
            new.elements@ == self.elements@,
            new.children@.len() == self.children@.len(),
            forall|j: int|
                0 <= j < self.children@.len() && j != i ==> new.children@[j] == self.children@[j],
            new.children@[i].inv(),
            new.children@[i].elements@.len() >= B - 1,
            new.children@[i].height() == self.children@[i].height(),
            new.length == new@.len(),
        ensures
            new.inv(),
            new.height() == self.height(),
    {
        assert forall|j: int| 0 <= j < new.children@.len() implies {
            &&& (#[trigger] new.children@[j]).inv()
            &&& new.children@[j].elements@.len() >= B - 1
            &&& new.children@[j].height() + 1 == new.height()
        } by {
            self.lemma_inv_child(j);
            self.lemma_inv_child(0);
        }
    }

    /// The subtree's sequence around two neighbouring children and the
    /// element between them.
    pub proof fn lemma_view_split_pair(self, i: int)
        requires
            0 <= i,
            i + 1 < self.children@.len(),
        ensures
            self@ == self.before(i) + self.children@[i]@ + seq![self.elements@[i]]
                + self.children@[i + 1]@ + self.after(i + 1),
    {
        lemma_join_split_pair(self.child_views(), self.elements@, i);
    }

    /// Where `new` differs from `self` only in a run of children starting at
    /// child `i`, `n_old` children long in `self` and `n_new` long in `new`,
    /// and in the elements between the children of that run, what lies
    /// before the run and what lies after it are the same in both.
    pub proof fn lemma_frame(self, new: Self, i: int, n_old: int, n_new: int)
        requires
            0 <= i,
            1 <= n_old,
            1 <= n_new,
            i + n_old <= self.children@.len(),
            new.children@.len() - n_new == self.children@.len() - n_old,
            new.elements@.len() - n_new == self.elements@.len() - n_old,
            self.children@.len() == self.elements@.len() + 1,
            forall|j: int| 0 <= j < i ==> new.children@[j] == self.children@[j],
            forall|j: int| 0 <= j < i ==> new.elements@[j] == self.elements@[j],
            forall|j: int|
                i + n_new <= j < new.children@.len() ==> #[trigger] new.children@[j]
                    == self.children@[j - n_new + n_old],
            forall|j: int|
                i + n_new - 1 <= j < new.elements@.len() ==> #[trigger] new.elements@[j]
                    == self.elements@[j - n_new + n_old],
        ensures
            new.before(i) == self.before(i),
            new.after(i + n_new - 1) == self.after(i + n_old - 1),
    {
        lemma_before_agree(new.child_views(), new.elements@, self.child_views(), self.elements@, i);
        let s1 = new.child_views();
        let s2 = self.child_views();
        assert forall|j: int| i + n_new - 1 < j < s1.len() implies #[trigger] s1[j] == s2[j - (i
            + n_new - 1) + (i + n_old - 1)] by {
            assert(new.children@[j] == self.children@[j - n_new + n_old]);
        }
        lemma_after_agree(
            s1,
            new.elements@,
            i + n_new - 1,
            s2,
            self.elements@,
            i + n_old - 1,
        );
    }

    /// The two halves of a full node around its middle element: together
    /// with that element they hold the node's sequence, and each is a node
    /// of the same height that meets the invariant once its length is
    /// cached.
    pub proof fn lemma_halves(self, left: Self, right: Self)
        requires
            self.inv(),
            self.elements@.len() == 2 * B - 1,
            left.elements@ == self.elements@.subrange(0, B - 1),
            right.elements@ == self.elements@.subrange(B as int, 2 * B - 1),
            self.children@.len() == 0 ==> left.children@.len() == 0 && right.children@.len() == 0,
            self.children@.len() > 0 ==> left.children@ == self.children@.subrange(0, B as int)
                && right.children@ == self.children@.subrange(B as int, 2 * B),
        ensures
            self@ == left@ + seq![self.elements@[B - 1]] + right@,
            left.height() == self.height(),
            right.height() == self.height(),
            left.length == left@.len() ==> left.inv(),
            right.length == right@.len() ==> right.inv(),
            left.counted(),
            right.counted(),
    {
        let mid = self.elements@[B - 1];
        if self.children@.len() == 0 {
            assert(self.elements@ =~= left.elements@ + seq![mid] + right.elements@);
        } else {
            assert(self.elements@ =~= left.elements@ + seq![mid] + right.elements@);
            assert(self.child_views() =~= left.child_views() + right.child_views());
            lemma_join_concat(
                left.child_views(),
                left.elements@,
                mid,
                right.child_views(),
                right.elements@,
            );
            assert forall|j: int| 0 <= j < left.children@.len() implies {
                &&& (#[trigger] left.children@[j]).inv()
                &&& left.children@[j].elements@.len() >= B - 1
                &&& left.children@[j].height() + 1 == left.height()
            } by {
                self.lemma_inv_child(j);
                self.lemma_inv_child(0);
            }
            assert forall|j: int| 0 <= j < right.children@.len() implies {
                &&& (#[trigger] right.children@[j]).inv()
                &&& right.children@[j].elements@.len() >= B - 1
                &&& right.children@[j].height() + 1 == right.height()
            } by {
                self.lemma_inv_child(j + B);
                self.lemma_inv_child(B as int);
                self.lemma_inv_child(0);
            }
        }
    }

    /// A node in which a full child was replaced by its two halves, with
    /// the child's middle element between them, holds the same sequence and
    /// meets the invariant again.
    pub proof fn lemma_split_done(self, new: Self, i: int, left: Self, right: Self)
        requires
            self.inv(),
            0 <= i < self.children@.len(),
            self.elements@.len() < 2 * B - 1,
            self.children@[i].elements@.len() == 2 * B - 1,
            self.children@[i]@ == left@ + seq![self.children@[i].elements@[B - 1]] + right@,
            left.inv(),
            right.inv(),
            left.height() == self.children@[i].height(),
            right.height() == self.children@[i].height(),
            left.elements@.len() == B - 1,
            right.elements@.len() == B - 1,
            new.elements@ == self.elements@.insert(i, self.children@[i].elements@[B - 1]),
            new.children@ == self.children@.update(i, left).insert(i + 1, right),
            new.length == self.length,
        ensures
            new.inv(),
            new@ == self@,
            new.height() == self.height(),
            new.before(i) == self.before(i),
    {
        self.lemma_inv_child(0);
        self.lemma_inv_child(i);
        self.lemma_view_split(i);
        self.lemma_frame(new, i, 1, 2);
        new.lemma_view_split_pair(i);
        assert(new.children@[i] == left);
        assert(new.children@[i + 1] == right);
        assert(new@ =~= self@);
        assert forall|j: int| 0 <= j < new.children@.len() implies {
            &&& (#[trigger] new.children@[j]).inv()
            &&& new.children@[j].elements@.len() >= B - 1
            &&& new.children@[j].height() + 1 == new.height()
        } by {
            if j < i {
                self.lemma_inv_child(j);
            } else if j > i + 1 {
                self.lemma_inv_child(j - 1);
            }
        }
    }

    /// The ranges of the children are disjoint: a position of the subtree
    /// falls in the range of one child only, and at one offset.
    pub proof fn lemma_find_unique(self, i: int, s: int, j: int, t: int)
        requires
            0 <= i < self.children@.len(),
            0 <= j < self.children@.len(),
            0 <= s <= self.children@[i]@.len(),
            0 <= t <= self.children@[j]@.len(),
            self.before(i).len() + s == self.before(j).len() + t,
        ensures
            i == j,
            s == t,
    {
        let cv = self.child_views();
        lemma_before_len(cv, self.elements@, i);
        lemma_before_len(cv, self.elements@, j);
        if i < j {
            lemma_subs_len_mono(cv, i + 1, j);
        } else if j < i {
            lemma_subs_len_mono(cv, j + 1, i);
        }
    }

    /// The place of a position is the one child and offset at which the
    /// position falls.
    pub proof fn lemma_locate(self, index: int, i: int, sub: int)
        requires
            self.in_child(index, i, sub),
        ensures
            self.locate(index) == (i, sub),
    {
        let (j, t) = self.locate(index);
        assert(self.in_child(index, j, t));
        self.lemma_find_unique(i, sub, j, t);
    }

    /// After the split of child `first`, a position that fell in that
    /// child's range falls in the range of one of its two halves.
    pub proof fn lemma_found_after_split(self, new: Self, first: int, sub: int, j: int, t: int)
        requires
            new.inv(),
            0 <= first < self.children@.len(),
            new.children@.len() == self.children@.len() + 1,
            new.before(first) == self.before(first),
            0 <= sub <= self.children@[first]@.len(),
            self.children@[first]@.len() == new.children@[first]@.len() + 1 + new.children@[first
                + 1]@.len(),
            0 <= j < new.children@.len(),
            0 <= t <= new.children@[j]@.len(),
            self.before(first).len() + sub == new.before(j).len() + t,
        ensures
            j == first || j == first + 1,
    {
        let left_len = new.children@[first]@.len() as int;
        if sub <= left_len {
            new.lemma_find_unique(first, sub, j, t);
        } else {
            lemma_before_len(new.child_views(), new.elements@, first);
            lemma_before_len(new.child_views(), new.elements@, first + 1);
            new.lemma_find_unique(first + 1, sub - left_len - 1, j, t);
        }
    }

    /// A node into whose child `i` an element was inserted, and whose cached
    /// length was raised by one, holds its old sequence with that element
    /// inserted, and meets the invariant again.
    pub proof fn lemma_inserted_in_child(self, new: Self, i: int, sub: int, element: T)
        requires
            self.inv(),
            0 <= i < self.children@.len(),
            0 <= sub <= self.children@[i]@.len(),
            new.elements@ == self.elements@,
            new.children@ == self.children@.update(i, new.children@[i]),
            new.children@[i].inv(),
            new.children@[i]@ == self.children@[i]@.insert(sub, element),
            new.children@[i].height() == self.children@[i].height(),
            new.children@[i].elements@.len() >= self.children@[i].elements@.len(),
            new.length == self.length + 1,
        ensures
            new.inv(),
            new@ == self@.insert(self.before(i).len() + sub, element),
            new.height() == self.height(),
    {
        self.lemma_inv_child(i);
        self.lemma_view_split(i);
        self.lemma_child_replaced(new, i);
        assert(new@ =~= self@.insert(self.before(i).len() + sub, element));
        self.lemma_inv_kept(new, i);
    }

    /// A node of `B - 1` elements, an element, and a second such node of the
    /// same height, put together in this order, make a full node that holds
    /// the three sequences one after another.
    pub proof fn lemma_merged(self, middle: T, successor: Self, new: Self)
        requires
            self.inv(),
            successor.inv(),
            self.height() == successor.height(),
            self.elements@.len() == B - 1,
            successor.elements@.len() == B - 1,
            new.elements@ == self.elements@.push(middle) + successor.elements@,
            new.children@ == self.children@ + successor.children@,
            new.length == self.length + successor.length + 1,
        ensures
            new.inv(),
            new@ == self@ + seq![middle] + successor@,
            new.height() == self.height(),
            new.elements@.len() == 2 * B - 1,
    {
        if self.children@.len() == 0 {
            assert(new@ =~= self@ + seq![middle] + successor@);
        } else {
            assert(new.elements@ =~= self.elements@ + seq![middle] + successor.elements@);
            assert(new.child_views() =~= self.child_views() + successor.child_views());
            lemma_join_concat(
                self.child_views(),
                self.elements@,
                middle,
                successor.child_views(),
                successor.elements@,
            );
            assert forall|j: int| 0 <= j < new.children@.len() implies {
                &&& (#[trigger] new.children@[j]).inv()
                &&& new.children@[j].elements@.len() >= B - 1
                &&& new.children@[j].height() + 1 == new.height()
            } by {
                self.lemma_inv_child(0);
                if j < self.children@.len() {
                    self.lemma_inv_child(j);
                } else {
                    successor.lemma_inv_child(j - self.children@.len());
                }
            }
        }
    }

    /// A node in which the children `i` and `i + 1` and the element between
    /// them were replaced by their merger holds the same sequence and meets
    /// the invariant again.
    pub proof fn lemma_merge_done(self, new: Self, i: int)
        requires
            self.inv(),
            0 <= i,
            i + 1 < self.children@.len(),
            new.elements@ == self.elements@.remove(i),
            new.children@ == self.children@.remove(i + 1).update(i, new.children@[i]),
            new.children@[i].inv(),
            new.children@[i]@ == self.children@[i]@ + seq![self.elements@[i]] + self.children@[i
                + 1]@,
            new.children@[i].height() == self.children@[i].height(),
            new.children@[i].elements@.len() >= B - 1,
            new.length == self.length,
        ensures
            new.inv(),
            new@ == self@,
            new.height() == self.height(),
            new.before(i) == self.before(i),
    {
        self.lemma_inv_child(0);
        self.lemma_inv_child(i);
        self.lemma_view_split_pair(i);
        self.lemma_frame(new, i, 2, 1);
        new.lemma_view_split(i);
        assert(new@ =~= self@);
        assert forall|j: int| 0 <= j < new.children@.len() implies {
            &&& (#[trigger] new.children@[j]).inv()
            &&& new.children@[j].elements@.len() >= B - 1
            &&& new.children@[j].height() + 1 == new.height()
        } by {
            if j < i {
                self.lemma_inv_child(j);
            } else if j > i {
                self.lemma_inv_child(j + 1);
            }
        }
    }

    /// The sequence of the last child, or nothing for a leaf.
    pub open spec fn last_child_view(self) -> Seq<T> {
        if self.children@.len() == 0 {
            Seq::empty()
        } else {
            self.children@.last()@
        }
    }

    /// The sequence of the first child, or nothing for a leaf.
    pub open spec fn first_child_view(self) -> Seq<T> {
        if self.children@.len() == 0 {
            Seq::empty()
        } else {
            self.children@[0]@
        }
    }

    /// Whether `new` is this node without its last element and, if it is
    /// internal, without its last child.
    pub open spec fn is_without_last(self, new: Self) -> bool {
        &&& new.elements@ == self.elements@.drop_last()
        &&& new.children@ == if self.children@.len() == 0 {
            self.children@
        } else {
            self.children@.drop_last()
        }
        &&& new.length == self.length - 1 - self.last_child_view().len()
    }

    /// Whether `new` is this node without its first element and, if it is
    /// internal, without its first child.
    pub open spec fn is_without_first(self, new: Self) -> bool {
        &&& new.elements@ == self.elements@.drop_first()
        &&& new.children@ == if self.children@.len() == 0 {
            self.children@
        } else {
            self.children@.drop_first()
        }
        &&& new.length == self.length - 1 - self.first_child_view().len()
    }

    /// A node that gives away its last element and last child keeps the
    /// rest of its sequence.
    pub proof fn lemma_without_last(self, new: Self)
        requires
            self.inv(),
            self.elements@.len() >= B,
            self.is_without_last(new),
        ensures
            self@ == new@ + seq![self.elements@.last()] + self.last_child_view(),
            new.inv(),
            new.height() == self.height(),
    {
        if self.children@.len() > 0 {
            let k = self.elements@.len() as int;
            assert(self.child_views() =~= new.child_views() + seq![self.children@[k]@]);
            assert(self.elements@ =~= new.elements@ + seq![self.elements@.last()]
                + Seq::<T>::empty());
            lemma_join_concat(
                new.child_views(),
                new.elements@,
                self.elements@.last(),
                seq![self.children@[k]@],
                Seq::<T>::empty(),
            );
            lemma_join_one(seq![self.children@[k]@], Seq::<T>::empty());
            assert forall|j: int| 0 <= j < new.children@.len() implies {
                &&& (#[trigger] new.children@[j]).inv()
                &&& new.children@[j].elements@.len() >= B - 1
                &&& new.children@[j].height() + 1 == new.height()
            } by {
                self.lemma_inv_child(j);
                self.lemma_inv_child(0);
            }
        } else {
            assert(self@ =~= new@ + seq![self.elements@.last()] + self.last_child_view());
        }
    }

    /// A node that gives away its first element and first child keeps the
    /// rest of its sequence.
    pub proof fn lemma_without_first(self, new: Self)
        requires
            self.inv(),
            self.elements@.len() >= B,
            self.is_without_first(new),
        ensures
            self@ == self.first_child_view() + seq![self.elements@[0]] + new@,
            new.inv(),
            new.height() == self.height(),
    {
        if self.children@.len() > 0 {
            assert(self.child_views() =~= seq![self.children@[0]@] + new.child_views());
            assert(self.elements@ =~= Seq::<T>::empty() + seq![self.elements@[0]]
                + new.elements@);
            lemma_join_concat(
                seq![self.children@[0]@],
                Seq::<T>::empty(),
                self.elements@[0],
                new.child_views(),
                new.elements@,
            );
            lemma_join_one(seq![self.children@[0]@], Seq::<T>::empty());
            assert forall|j: int| 0 <= j < new.children@.len() implies {
                &&& (#[trigger] new.children@[j]).inv()
                &&& new.children@[j].elements@.len() >= B - 1
                &&& new.children@[j].height() + 1 == new.height()
            } by {
                self.lemma_inv_child(j + 1);
                self.lemma_inv_child(1);
                self.lemma_inv_child(0);
            }
        } else {
            assert(self@ =~= self.first_child_view() + seq![self.elements@[0]] + new@);
        }
    }

    /// A node that takes an element, and with it a subtree of the height of
    /// its children, in at its front holds them before its old sequence.
    pub proof fn lemma_front_put(self, new: Self, element: T, donor: Self)
        requires
            self.inv(),
            donor.inv(),
            donor.height() == self.height(),
            donor.elements@.len() >= B,
            self.elements@.len() < 2 * B - 1,
            new.elements@ == self.elements@.insert(0, element),
            new.children@ == (if self.children@.len() == 0 {
                self.children@
            } else {
                self.children@.insert(0, donor.children@.last())
            }),
            new.length == self.length + 1 + donor.last_child_view().len(),
        ensures
            new@ == donor.last_child_view() + seq![element] + self@,
            new.inv(),
            new.height() == self.height(),
    {
        if self.children@.len() > 0 {
            let moved = donor.children@.last();
            donor.lemma_inv_child(donor.children@.len() - 1);
            assert(new.child_views() =~= seq![moved@] + self.child_views());
            assert(new.elements@ =~= Seq::<T>::empty() + seq![element] + self.elements@);
            lemma_join_concat(
                seq![moved@],
                Seq::<T>::empty(),
                element,
                self.child_views(),
                self.elements@,
            );
            lemma_join_one(seq![moved@], Seq::<T>::empty());
            assert forall|j: int| 0 <= j < new.children@.len() implies {
                &&& (#[trigger] new.children@[j]).inv()
                &&& new.children@[j].elements@.len() >= B - 1
                &&& new.children@[j].height() + 1 == new.height()
            } by {
                self.lemma_inv_child(0);
                if j > 0 {
                    self.lemma_inv_child(j - 1);
                }
            }
        } else {
            assert(new@ =~= donor.last_child_view() + seq![element] + self@);
        }
    }

    /// A node that takes an element, and with it a subtree of the height of
    /// its children, in at its back holds them behind its old sequence.
    pub proof fn lemma_back_put(self, new: Self, element: T, donor: Self)
        requires
            self.inv(),
            donor.inv(),
            donor.height() == self.height(),
            donor.elements@.len() >= B,
            self.elements@.len() < 2 * B - 1,
            new.elements@ == self.elements@.push(element),
            new.children@ == (if self.children@.len() == 0 {
                self.children@
            } else {
                self.children@.push(donor.children@[0])
            }),
            new.length == self.length + 1 + donor.first_child_view().len(),
        ensures
            new@ == self@ + seq![element] + donor.first_child_view(),
            new.inv(),
            new.height() == self.height(),
    {
        if self.children@.len() > 0 {
            let moved = donor.children@[0];
            donor.lemma_inv_child(0);
            assert(new.child_views() =~= self.child_views() + seq![moved@]);
            assert(new.elements@ =~= self.elements@ + seq![element] + Seq::<T>::empty());
            lemma_join_concat(
                self.child_views(),
                self.elements@,
                element,
                seq![moved@],
                Seq::<T>::empty(),
            );
            lemma_join_one(seq![moved@], Seq::<T>::empty());
            assert forall|j: int| 0 <= j < new.children@.len() implies {
                &&& (#[trigger] new.children@[j]).inv()
                &&& new.children@[j].elements@.len() >= B - 1
                &&& new.children@[j].height() + 1 == new.height()
            } by {
                self.lemma_inv_child(0);
                if j < self.children@.len() {
                    self.lemma_inv_child(j);
                }
            }
        } else {
            assert(new@ =~= self@ + seq![element] + donor.first_child_view());
        }
    }

    /// Where `new` differs from this node only in the children `i` and
    /// `i + 1` and in the element between them, the two hold the same
    /// sequences before and after those three.
    pub proof fn lemma_pair_replaced(self, new: Self, i: int)
        requires
            0 <= i,
            i + 1 < self.children@.len(),
            self.children@.len() == self.elements@.len() + 1,
            new.elements@ == self.elements@.update(i, new.elements@[i]),
            new.children@ == self.children@.update(i, new.children@[i]).update(
                i + 1,
                new.children@[i + 1],
            ),
        ensures
            self@ == self.before(i) + self.children@[i]@ + seq![self.elements@[i]]
                + self.children@[i + 1]@ + self.after(i + 1),
            new@ == self.before(i) + new.children@[i]@ + seq![new.elements@[i]] + new.children@[i
                + 1]@ + self.after(i + 1),
            new.before(i) == self.before(i),
    {
        self.lemma_view_split_pair(i);
        new.lemma_view_split_pair(i);
        self.lemma_frame(new, i, 2, 2);
    }

    /// A node whose children `i` and `i + 1` were replaced by nodes of the
    /// same height that meet the invariant and are not under-full, and
    /// whose cached length is right, meets the invariant again.
    pub proof fn lemma_inv_kept_pair(self, new: Self, i: int)
        requires
            self.inv(),
            0 <= i,
            i + 1 < self.children@.len(),
            new.elements@.len() == self.elements@.len(),
            new.children@ == self.children@.update(i, new.children@[i]).update(
                i + 1,
                new.children@[i + 1],
            ),
            new.children@[i].inv(),
            new.children@[i].elements@.len() >= B - 1,
            new.children@[i].height() == self.children@[i].height(),
            new.children@[i + 1].inv(),
            new.children@[i + 1].elements@.len() >= B - 1,
            new.children@[i + 1].height() == self.children@[i + 1].height(),
            new.length == new@.len(),
        ensures
            new.inv(),
            new.height() == self.height(),
    {
        assert forall|j: int| 0 <= j < new.children@.len() implies {
            &&& (#[trigger] new.children@[j]).inv()
            &&& new.children@[j].elements@.len() >= B - 1
            &&& new.children@[j].height() + 1 == new.height()
        } by {
            self.lemma_inv_child(j);
            self.lemma_inv_child(0);
        }
    }

    /// A node in which child `i + 1` took the element `i` and child `i`
    /// gave its last element up in exchange, its last child going over with
    /// it, holds the same sequence and meets the invariant again.
    pub proof fn lemma_rotated_right(self, new: Self, i: int)
        requires
            self.inv(),
            0 <= i,
            i + 1 < self.children@.len(),
            self.children@[i].elements@.len() >= B,
            self.children@[i + 1].elements@.len() < 2 * B - 1,
            new.elements@ == self.elements@.update(i, self.children@[i].elements@.last()),
            new.children@ == self.children@.update(i, new.children@[i]).update(
                i + 1,
                new.children@[i + 1],
            ),
            self.children@[i].is_without_last(new.children@[i]),
            new.children@[i + 1].elements@ == self.children@[i + 1].elements@.insert(
                0,
                self.elements@[i],
            ),
            new.children@[i + 1].children@ == (if self.children@[i + 1].children@.len() == 0 {
                self.children@[i + 1].children@
            } else {
                self.children@[i + 1].children@.insert(0, self.children@[i].children@.last())
            }),
            new.children@[i + 1].length == self.children@[i + 1].length + 1
                + self.children@[i].last_child_view().len(),
            new.length == self.length,
        ensures
            new.inv(),
            new@ == self@,
            new.height() == self.height(),
            new.before(i + 1).len() <= self.before(i + 1).len(),
            new.before(i + 1).len() + new.children@[i + 1]@.len() == self.before(i + 1).len()
                + self.children@[i + 1]@.len(),
    {
        let left = self.children@[i];
        let child = self.children@[i + 1];
        self.lemma_inv_child(i);
        self.lemma_inv_child(i + 1);
        left.lemma_without_last(new.children@[i]);
        child.lemma_front_put(new.children@[i + 1], self.elements@[i], left);
        self.lemma_pair_replaced(new, i);
        assert(new@ =~= self@);
        self.lemma_inv_kept_pair(new, i);
    }

    /// A node in which child `i` took the element `i` and child `i + 1`
    /// gave its first element up in exchange, its first child going over
    /// with it, holds the same sequence and meets the invariant again.
    pub proof fn lemma_rotated_left(self, new: Self, i: int)
        requires
            self.inv(),
            0 <= i,
            i + 1 < self.children@.len(),
            self.children@[i + 1].elements@.len() >= B,
            self.children@[i].elements@.len() < 2 * B - 1,
            new.elements@ == self.elements@.update(i, self.children@[i + 1].elements@[0]),
            new.children@ == self.children@.update(i, new.children@[i]).update(
                i + 1,
                new.children@[i + 1],
            ),
            self.children@[i + 1].is_without_first(new.children@[i + 1]),
            new.children@[i].elements@ == self.children@[i].elements@.push(self.elements@[i]),
            new.children@[i].children@ == (if self.children@[i].children@.len() == 0 {
                self.children@[i].children@
            } else {
                self.children@[i].children@.push(self.children@[i + 1].children@[0])
            }),
            new.children@[i].length == self.children@[i].length + 1 + self.children@[i
                + 1].first_child_view().len(),
            new.length == self.length,
        ensures
            new.inv(),
            new@ == self@,
            new.height() == self.height(),
            new.before(i) == self.before(i),
            new.children@[i]@.len() >= self.children@[i]@.len(),
    {
        let child = self.children@[i];
        let right = self.children@[i + 1];
        self.lemma_inv_child(i);
        self.lemma_inv_child(i + 1);
        right.lemma_without_first(new.children@[i + 1]);
        child.lemma_back_put(new.children@[i], self.elements@[i], right);
        self.lemma_pair_replaced(new, i);
        assert(new@ =~= self@);
        self.lemma_inv_kept_pair(new, i);
    }

    /// The invariant gives what `count` and `cumulative_index` ask for.
    pub proof fn lemma_inv_counted(self)
        requires
            self.inv(),
        ensures
            self.counted(),
    {
        assert forall|i: int| 0 <= i < self.children@.len() implies (
        #[trigger] self.children@[i]).length == self.children@[i]@.len() by {
            self.lemma_inv_child(i);
        }
    }

    /// The two children around element `i` and that element lie within the
    /// subtree, and a child that has an element to spare holds more than
    /// its outermost child does.
    pub proof fn lemma_pair_lengths(self, i: int)
        requires
            self.inv(),
            0 <= i,
            i + 1 < self.children@.len(),
        ensures
            self.children@[i]@.len() + 1 + self.children@[i + 1]@.len() <= self@.len(),
            self.children@[i].elements@.len() >= 1 ==> self.children@[i]@.len() >= 1
                + self.children@[i].last_child_view().len(),
            self.children@[i + 1].elements@.len() >= 1 ==> self.children@[i + 1]@.len() >= 1
                + self.children@[i + 1].first_child_view().len(),
    {
        self.lemma_view_split_pair(i);
        self.lemma_inv_child(i);
        self.lemma_inv_child(i + 1);
        let left = self.children@[i];
        if left.elements@.len() >= 1 && left.children@.len() > 0 {
            left.lemma_view_split(left.children@.len() - 1);
            lemma_before_len(left.child_views(), left.elements@, left.children@.len() - 1);
        }
        let right = self.children@[i + 1];
        if right.elements@.len() >= 1 && right.children@.len() > 0 {
            right.lemma_view_split_pair(0);
        }
    }

    /// A node from whose child `i` the element at offset `sub` was removed,
    /// and whose cached length was lowered by one, holds its old sequence
    /// without that element, and meets the invariant again.
    pub proof fn lemma_removed_in_child(self, new: Self, i: int, sub: int)
        requires
            self.inv(),
            0 <= i < self.children@.len(),
            0 <= sub < self.children@[i]@.len(),
            new.elements@ == self.elements@,
            new.children@ == self.children@.update(i, new.children@[i]),
            new.children@[i].inv(),
            new.children@[i]@ == self.children@[i]@.remove(sub),
            new.children@[i].height() == self.children@[i].height(),
            new.children@[i].elements@.len() >= B - 1,
            new.length == self.length - 1,
        ensures
            new.inv(),
            new@ == self@.remove(self.before(i).len() + sub),
            new.height() == self.height(),
    {
        self.lemma_inv_child(i);
        self.lemma_view_split(i);
        self.lemma_child_replaced(new, i);
        assert(new@ =~= self@.remove(self.before(i).len() + sub));
        self.lemma_inv_kept(new, i);
    }

    /// A node whose element `i` was replaced by the last element of the
    /// child before it, taken out of that child, holds its old sequence
    /// without element `i`.
    pub proof fn lemma_replaced_by_predecessor(self, new: Self, i: int)
        requires
            self.inv(),
            0 <= i < self.elements@.len(),
            self.children@.len() > 0,
            self.children@[i]@.len() >= 1,
            new.elements@ == self.elements@.update(i, self.children@[i]@.last()),
            new.children@ == self.children@.update(i, new.children@[i]),
            new.children@[i].inv(),
            new.children@[i]@ == self.children@[i]@.remove(self.children@[i]@.len() - 1),
            new.children@[i].height() == self.children@[i].height(),
            new.children@[i].elements@.len() >= B - 1,
            new.length == self.length - 1,
        ensures
            new.inv(),
            new@ == self@.remove((self.before(i).len() + self.children@[i]@.len()) as int),
            new.height() == self.height(),
    {
        self.lemma_inv_child(i);
        self.lemma_inv_child(i + 1);
        assert(new.children@ =~= self.children@.update(i, new.children@[i]).update(
            i + 1,
            new.children@[i + 1],
        ));
        self.lemma_pair_replaced(new, i);
        assert(new@ =~= self@.remove((self.before(i).len() + self.children@[i]@.len()) as int));
        self.lemma_inv_kept_pair(new, i);
    }

    /// A node whose element `i` was replaced by the first element of the
    /// child behind it, taken out of that child, holds its old sequence
    /// without element `i`.
    pub proof fn lemma_replaced_by_successor(self, new: Self, i: int)
        requires
            self.inv(),
            0 <= i < self.elements@.len(),
            self.children@.len() > 0,
            self.children@[i + 1]@.len() >= 1,
            new.elements@ == self.elements@.update(i, self.children@[i + 1]@[0]),
            new.children@ == self.children@.update(i + 1, new.children@[i + 1]),
            new.children@[i + 1].inv(),
            new.children@[i + 1]@ == self.children@[i + 1]@.remove(0),
            new.children@[i + 1].height() == self.children@[i + 1].height(),
            new.children@[i + 1].elements@.len() >= B - 1,
            new.length == self.length - 1,
        ensures
            new.inv(),
            new@ == self@.remove((self.before(i).len() + self.children@[i]@.len()) as int),
            new.height() == self.height(),
    {
        self.lemma_inv_child(i);
        self.lemma_inv_child(i + 1);
        assert(new.children@ =~= self.children@.update(i, new.children@[i]).update(
            i + 1,
            new.children@[i + 1],
        ));
        self.lemma_pair_replaced(new, i);
        assert(new@ =~= self@.remove((self.before(i).len() + self.children@[i]@.len()) as int));
        self.lemma_inv_kept_pair(new, i);
    }
}

} // verus!
