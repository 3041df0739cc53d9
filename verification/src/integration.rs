//! Integration verdicts for commits, fixed for one operation.
//!
//! Whether a commit's changes are already subsumed by the upstream target is
//! decided by the repository's graph traversal, an external collaborator. The
//! traversal runs against a fixed snapshot, so a commit's verdict cannot
//! change during one operation: the caller computes the verdicts once and
//! constructs an [`IntegrationChecker`] from them. This module only governs
//! how the verdicts are looked up and combined.

use vstd::prelude::*;

verus! {

/// Per-commit integration verdicts against one fixed target tip.
///
/// Holds the set of commit ids whose changes the graph traversal reported as
/// already present upstream. Answers are stable for the checker's lifetime.
pub struct IntegrationChecker {
    /// Ids of the commits reported integrated, in no particular order.
    pub integrated: Vec<u64>,
}

impl IntegrationChecker {
    /// What `is_integrated` answers for `id`.
    pub open spec fn spec_is_integrated(&self, id: u64) -> bool {
        self.integrated@.contains(id)
    }

    /// Builds a checker from the traversal's verdicts.
    pub fn new(integrated: Vec<u64>) -> (c: Self)
        ensures
            c.integrated == integrated,
    {
        IntegrationChecker { integrated }
    }

    /// True exactly when the traversal reported `id` as integrated.
    pub fn is_integrated(&self, id: u64) -> (r: bool)
        ensures
            r == self.spec_is_integrated(id),
    {
        let mut i: usize = 0;
        while i < self.integrated.len()
            invariant
                0 <= i <= self.integrated@.len(),
                forall|j: int| 0 <= j < i ==> self.integrated@[j] != id,
            decreases self.integrated@.len() - i,
        {
            if self.integrated[i] == id {
                return true;
            }
            i = i + 1;
        }
        false
    }
}

} // verus!
