//! A verified 2-3 tree: a balanced ordered map from `usize` keys to `usize`
//! values with guaranteed-logarithmic insert, delete and lookup, rebalanced
//! by node splits and merges rather than rotations.

pub mod two_three_tree;
