//! What holds of the comparison whatever the trees: a tree does not differ
//! from itself, a diff read backwards is the diff of the trees exchanged,
//! an object is the mapping it holds, the counts of a diff are those of its
//! changes, every change has the values of its kind, and an aligned array
//! keeps a longest common subsequence.

pub mod alignment;
pub mod changes;
pub mod counts;
pub mod key_order;
pub mod reflexivity;
pub mod symmetry;
