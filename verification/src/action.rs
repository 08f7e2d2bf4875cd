//! Changes to a list as values, and their replay: against a list, and
//! against a plain sequence that serves as the reference.
use crate::list::BTreeList;
use vstd::prelude::*;

verus! {

/// One change to a list.
pub enum Action<T> {
    /// Insert the element at the position.
    Insert(usize, T),
    /// Remove the element at the position.
    Remove(usize),
    /// Replace the element at the position by the given one.
    Replace(usize, T),
}

impl<T> Action<T> {
    /// Whether the position of the action is one at which it can be carried
    /// out on `s`.
    pub open spec fn applies_to(self, s: Seq<T>) -> bool {
        match self {
            Action::Insert(index, _) => index <= s.len(),
            Action::Remove(index) => index < s.len(),
            Action::Replace(index, _) => index < s.len(),
        }
    }

    /// The sequence `s` after the action: changed as a plain array would
    /// be, or left as it is where the action cannot be carried out.
    pub open spec fn result(self, s: Seq<T>) -> Seq<T> {
        if !self.applies_to(s) {
            s
        } else {
            match self {
                Action::Insert(index, element) => s.insert(index as int, element),
                Action::Remove(index) => s.remove(index as int),
                Action::Replace(index, element) => s.update(index as int, element),
            }
        }
    }

    /// What the action hands back: the element removed or replaced, or the
    /// element given where it could not be put into the sequence.
    pub open spec fn hands_back(self, s: Seq<T>) -> Option<T> {
        match self {
            Action::Insert(_, element) => if self.applies_to(s) {
                None
            } else {
                Some(element)
            },
            Action::Remove(index) => if self.applies_to(s) {
                Some(s[index as int])
            } else {
                None
            },
            Action::Replace(index, element) => if self.applies_to(s) {
                Some(s[index as int])
            } else {
                Some(element)
            },
        }
    }
}

/// The sequence `s` after all `actions`, carried out in their order.
pub open spec fn replay<T>(s: Seq<T>, actions: Seq<Action<T>>) -> Seq<T>
    decreases actions.len(),
{
    if actions.len() == 0 {
        s
    } else {
        actions.last().result(replay(s, actions.drop_last()))
    }
}

/// What the `actions` hand back, one after another, when they are carried
/// out on `s` in their order.
pub open spec fn handed_back<T>(s: Seq<T>, actions: Seq<Action<T>>) -> Seq<Option<T>>
    decreases actions.len(),
{
    if actions.len() == 0 {
        Seq::empty()
    } else {
        handed_back(s, actions.drop_last()).push(
            actions.last().hands_back(replay(s, actions.drop_last())),
        )
    }
}

/// How many of the `actions` are insertions that can be carried out when
/// their turn comes.
pub open spec fn insertions<T>(s: Seq<T>, actions: Seq<Action<T>>) -> nat
    decreases actions.len(),
{
    if actions.len() == 0 {
        0
    } else {
        let before = replay(s, actions.drop_last());
        insertions(s, actions.drop_last()) + if actions.last() is Insert
            && actions.last().applies_to(before) {
            1nat
        } else {
            0nat
        }
    }
}

/// How many of the `actions` are removals that can be carried out when
/// their turn comes.
pub open spec fn removals<T>(s: Seq<T>, actions: Seq<Action<T>>) -> nat
    decreases actions.len(),
{
    if actions.len() == 0 {
        0
    } else {
        let before = replay(s, actions.drop_last());
        removals(s, actions.drop_last()) + if actions.last() is Remove
            && actions.last().applies_to(before) {
            1nat
        } else {
            0nat
        }
    }
}

/// The actions that insert the first `k` of the `items`, each at the end.
pub open spec fn fill<T>(items: Seq<T>, k: int) -> Seq<Action<T>> {
    Seq::new(k as nat, |i: int| Action::Insert(i as usize, items[i]))
}

/// The `k` actions that each remove the first element of what is left.
pub open spec fn drain_front<T>(k: int) -> Seq<Action<T>> {
    Seq::new(k as nat, |i: int| Action::Remove(0))
}

/// The `k` actions that remove the last element of a sequence of length
/// `len`, then the last of what is left, and so on.
pub open spec fn drain_back<T>(len: nat, k: int) -> Seq<Action<T>> {
    Seq::new(k as nat, |i: int| Action::Remove((len - 1 - i) as usize))
}

/// Whether the sequence has room for every insertion among the `actions`
/// that can be carried out when its turn comes: none of them finds a
/// sequence that holds `usize::MAX` elements already.
pub open spec fn fits<T>(s: Seq<T>, actions: Seq<Action<T>>) -> bool {
    forall|k: int|
        0 <= k < actions.len() && (#[trigger] actions[k]) is Insert && actions[k].applies_to(
            replay(s, actions.take(k)),
        ) ==> replay(s, actions.take(k)).len() < usize::MAX
}

/// A sequence that leaves room for as many elements as there are actions
/// has room for every insertion among them.
pub proof fn lemma_fits<T>(s: Seq<T>, actions: Seq<Action<T>>)
    requires
        s.len() + actions.len() <= usize::MAX,
    ensures
        fits(s, actions),
{
    assert forall|k: int|
        0 <= k < actions.len() && (#[trigger] actions[k]) is Insert && actions[k].applies_to(
            replay(s, actions.take(k)),
        ) implies replay(s, actions.take(k)).len() < usize::MAX by {
        lemma_replay_len(s, actions.take(k));
    }
}

/// After any sequence of actions the length is the length at the start,
/// plus the number of insertions and minus the number of removals that were
/// carried out.
pub proof fn lemma_replay_len<T>(s: Seq<T>, actions: Seq<Action<T>>)
    ensures
        replay(s, actions).len() == s.len() + insertions(s, actions) - removals(s, actions),
        replay(s, actions).len() <= s.len() + actions.len(),
    decreases actions.len(),
{
    if actions.len() > 0 {
        lemma_replay_len(s, actions.drop_last());
    }
}

/// A sequence of actions that, starting from nothing, removes as many
/// elements as it inserts leaves nothing behind.
pub proof fn lemma_round_trip<T>(actions: Seq<Action<T>>)
    requires
        insertions(Seq::<T>::empty(), actions) == removals(Seq::<T>::empty(), actions),
    ensures
        replay(Seq::<T>::empty(), actions) == Seq::<T>::empty(),
{
    lemma_replay_len(Seq::<T>::empty(), actions);
    assert(replay(Seq::<T>::empty(), actions) =~= Seq::<T>::empty());
}

/// Inserting the first `k` of the `items`, each at the end, gives those
/// `k` items in their order.
pub proof fn lemma_fill<T>(items: Seq<T>, k: int)
    requires
        0 <= k <= items.len(),
        items.len() <= usize::MAX,
    ensures
        replay(Seq::<T>::empty(), fill(items, k)) == items.take(k),
    decreases k,
{
    if k > 0 {
        lemma_fill(items, k - 1);
        assert(fill(items, k).drop_last() =~= fill(items, k - 1));
        assert(items.take(k - 1).insert(k - 1, items[k - 1]) =~= items.take(k));
    } else {
        assert(items.take(0) =~= Seq::<T>::empty());
    }
}

/// Inserting the `items` one behind the other and then removing one element
/// after another from the front hands the items back in their order.
pub proof fn lemma_round_trip_front<T>(items: Seq<T>, k: int)
    requires
        0 <= k <= items.len(),
        items.len() <= usize::MAX,
    ensures
        replay(Seq::<T>::empty(), fill(items, items.len() as int)) == items,
        replay(items, drain_front(k)) == items.skip(k),
        handed_back(items, drain_front(k)) == Seq::new(k as nat, |i: int| Some(items[i])),
    decreases k,
{
    lemma_fill(items, items.len() as int);
    assert(items.take(items.len() as int) =~= items);
    let removes = drain_front::<T>(k);
    if k > 0 {
        lemma_round_trip_front(items, k - 1);
        assert(removes.drop_last() =~= drain_front::<T>(k - 1));
        assert(items.skip(k - 1).remove(0) =~= items.skip(k));
        assert(handed_back(items, removes) =~= Seq::new(k as nat, |i: int| Some(items[i])));
    } else {
        assert(items.skip(0) =~= items);
        assert(handed_back(items, removes) =~= Seq::new(k as nat, |i: int| Some(items[i])));
    }
}

/// Inserting the `items` one behind the other and then removing one element
/// after another from the back hands the items back in reverse order.
pub proof fn lemma_round_trip_back<T>(items: Seq<T>, k: int)
    requires
        0 <= k <= items.len(),
        items.len() <= usize::MAX,
    ensures
        replay(items, drain_back(items.len(), k)) == items.take(items.len() - k),
        handed_back(items, drain_back(items.len(), k)) == Seq::new(
            k as nat,
            |i: int| Some(items[items.len() - 1 - i]),
        ),
    decreases k,
{
    let removes = drain_back(items.len(), k);
    if k > 0 {
        lemma_round_trip_back(items, k - 1);
        assert(removes.drop_last() =~= drain_back(items.len(), k - 1));
        assert(removes.last() == Action::<T>::Remove((items.len() - k) as usize));
        assert(items.take(items.len() - (k - 1)).remove(items.len() - k) =~= items.take(
            items.len() - k,
        ));
        assert(handed_back(items, removes) =~= Seq::new(
            k as nat,
            |i: int| Some(items[items.len() - 1 - i]),
        ));
    } else {
        assert(items.take(items.len() - 0) =~= items);
        assert(handed_back(items, removes) =~= Seq::new(
            k as nat,
            |i: int| Some(items[items.len() - 1 - i]),
        ));
    }
}

impl<T, const B: usize> BTreeList<T, B> {
    /// Carries out one action, and returns what it hands back.
    pub fn apply(&mut self, action: Action<T>) -> (back: Option<T>)
        requires
            old(self).wf(),
            action is Insert && action.applies_to(old(self)@) ==> old(self)@.len() < usize::MAX,
        ensures
            final(self).wf(),
            final(self)@ == action.result(old(self)@),
            back == action.hands_back(old(self)@),
    {
        match action {
            Action::Insert(index, element) => match self.insert(index, element) {
                Ok(()) => None,
                Err(element) => Some(element),
            },
            Action::Remove(index) => self.remove(index),
            Action::Replace(index, element) => match self.set(index, element) {
                Ok(previous) => Some(previous),
                Err(element) => Some(element),
            },
        }
    }

    /// Carries out the `actions` in their order, and returns what each of
    /// them hands back. The list ends as a plain array would that went
    /// through the same actions.
    pub fn apply_all(&mut self, actions: Vec<Action<T>>) -> (back: Vec<Option<T>>)
        requires
            old(self).wf(),
            fits(old(self)@, actions@),
        ensures
            final(self).wf(),
            final(self)@ == replay(old(self)@, actions@),
            back@ == handed_back(old(self)@, actions@),
            final(self)@.len() == old(self)@.len() + insertions(old(self)@, actions@) - removals(
                old(self)@,
                actions@,
            ),
    {
        let mut back: Vec<Option<T>> = Vec::new();
        for action in iter: actions
            invariant
                self.wf(),
                iter.seq() == actions@,
                fits(old(self)@, actions@),
                self@ == replay(old(self)@, actions@.take(iter.index())),
                back@ == handed_back(old(self)@, actions@.take(iter.index())),
        {
            proof {
                assert(actions@.take(iter.index() + 1).drop_last() =~= actions@.take(
                    iter.index(),
                ));
                assert(actions@[iter.index()] == action);
            }
            let handed = self.apply(action);
            back.push(handed);
        }
        proof {
            assert(actions@.take(actions@.len() as int) =~= actions@);
            lemma_replay_len(old(self)@, actions@);
        }
        back
    }
}

} // verus!
