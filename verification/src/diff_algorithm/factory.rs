//! Picks a diff engine for a requested algorithm.

use vstd::prelude::*;

use crate::diff_algorithm::common::{Algorithm, Change, ChangeData, DiffAlgorithm, DiffOp};
use crate::diff_algorithm::myers::MyersDiff;
use crate::diff_algorithm::similar::SimilarDiff;

verus! {

/// A diff engine chosen at runtime.
#[derive(Debug)]
pub enum DiffEngine {
    /// The reference engine built on the similar crate.
    Similar(SimilarDiff),
    /// The from-scratch shortest-edit-script engine.
    Myers(MyersDiff),
}

impl DiffAlgorithm for DiffEngine {
    open spec fn spec_tokens(&self, s: Seq<char>) -> Seq<Seq<char>> {
        match self {
            DiffEngine::Similar(d) => d.spec_tokens(s),
            DiffEngine::Myers(d) => d.spec_tokens(s),
        }
    }

    open spec fn spec_ops(&self, old: Seq<char>, new: Seq<char>) -> Seq<DiffOp> {
        match self {
            DiffEngine::Similar(d) => d.spec_ops(old, new),
            DiffEngine::Myers(d) => d.spec_ops(old, new),
        }
    }

    open spec fn spec_changes(&self, old: Seq<char>, new: Seq<char>, op: DiffOp) -> Seq<
        ChangeData,
    > {
        match self {
            DiffEngine::Similar(d) => d.spec_changes(old, new, op),
            DiffEngine::Myers(d) => d.spec_changes(old, new, op),
        }
    }

    fn ops(&self, old: &str, new: &str) -> (r: Vec<DiffOp>) {
        match self {
            DiffEngine::Similar(d) => d.ops(old, new),
            DiffEngine::Myers(d) => d.ops(old, new),
        }
    }

    fn iter_inline_changes(&self, old: &str, new: &str, op: &DiffOp) -> (r: Vec<Change>) {
        match self {
            DiffEngine::Similar(d) => d.iter_inline_changes(old, new, op),
            DiffEngine::Myers(d) => d.iter_inline_changes(old, new, op),
        }
    }
}

/// Factory for creating diff algorithm instances
#[derive(Debug)]
pub struct DiffAlgorithmFactory;

impl DiffAlgorithmFactory {
    /// Creates a new diff algorithm instance based on the specified
    /// algorithm.
    pub fn create(algorithm: Algorithm) -> (r: DiffEngine)
        ensures
            r == (match algorithm {
                Algorithm::Similar => DiffEngine::Similar(SimilarDiff),
                Algorithm::Myers => DiffEngine::Myers(MyersDiff),
            }),
    {
        match algorithm {
            Algorithm::Similar => DiffEngine::Similar(SimilarDiff),
            Algorithm::Myers => DiffEngine::Myers(MyersDiff),
        }
    }
}

} // verus!
