//! Binary decision-tree classifier over integer features.
//!
//! A tree is grown by greedy recursive partitioning: at each node every
//! midpoint between consecutive distinct values of every feature is tried,
//! and the split with the lowest summed weighted impurity (Gini or entropy)
//! wins, if it beats leaving the node whole. Impurities are compared as exact
//! fractions.

use vstd::prelude::*;

pub mod order;
pub mod freq;
pub mod splits;
pub mod impurity;
pub mod tree;

pub use freq::freq;
pub use splits::{uniquify, get_splits, split_slice};
pub use impurity::Cost;
pub use tree::{DecisionTreeClassifier, Error, FeatureMatrix, Link, Node};

verus! {

/// Impurity criterion used to rank candidate splits.
#[derive(Debug, Clone, Copy, PartialEq, Eq, Structural)]
pub enum Metrics {
    /// Gini impurity
    Gini,
    /// Information gain (entropy)
    Entropy,
}

} // verus!
