//! Reconciliation core of a stacked-branches workflow manager.
//!
//! A [`stack::Stack`] keeps several named patch series layered on one linear
//! local commit history. This crate owns the stack's structural invariants and
//! mutation operations, the decision procedure that combines per-commit
//! integration verdicts, the reconciliation of each series against its fetched
//! remote counterpart, and push planning. The repository backend, the network
//! transport, the reference-name normalizer and the snapshot subsystem are
//! external collaborators: callers hand this crate their answers as plain
//! values (commit ids, verdict lists, fetched commit sets) and carry out the
//! plans it returns.
#![verifier::loop_isolation(false)]

pub mod integration;
pub mod laws;
pub mod push;
pub mod reconcile;
pub mod stack;
