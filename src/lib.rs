//! Search for groups of words whose letters are pairwise disjoint.

pub mod counts;
pub mod letters;
pub mod naive;
pub mod output;
pub mod search;
pub mod tree;
