//! A list with efficient insertion and removal in the middle.
//!
//! A [`BTreeList`] is kept as a balanced tree whose nodes cache the number
//! of elements below them, so that an element is found, inserted or removed
//! at any position by one walk from the root to a leaf.
//!
//! The view of a list is the sequence of its elements. Every operation
//! states what it does to that sequence in the terms in which a plain
//! array is described, and keeps the list well-formed.
//!
//! - `list` holds the list itself, `iter` and `owned_iter` its two
//!   iterators, `equality` and `cloning` its comparison and its copies.
//! - `node` holds the nodes of the tree and the work done on them, `lemmas`
//!   what is proved of them, and `flatten` the sequence that a row of
//!   subtrees with elements between them holds.
//! - `action` holds changes to a list as values, and what holds of every
//!   sequence of them.
pub mod action;
pub mod cloning;
pub mod equality;
pub mod flatten;
pub mod iter;
pub mod lemmas;
pub mod list;
pub mod node;
pub mod owned_iter;

pub use crate::action::Action;
pub use crate::iter::Iter;
pub use crate::list::BTreeList;
pub use crate::owned_iter::OwnedIter;
