//! An ordered multiset of `i64` values kept as a randomized balanced tree
//! (a treap), augmented with per-subtree element counts and sums so that the
//! total sum and the sum of the `n` greatest elements are answered without
//! enumerating the elements. A sliding-window driver computes, over every
//! window of a fixed length, the window sum minus the sum of its `k` largest
//! values, and returns the minimum.

pub mod seqs;
pub mod treap;
pub mod window;
