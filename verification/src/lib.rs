//! Orchestration layer around an external satisfiability oracle.
//!
//! Combinatorial problems (permutation placement, cycle search, capacity
//! partitioning) are translated into named decision variables and constraints,
//! handed to the oracle, and the returned models are extracted, validated and
//! refined.  The oracle itself is a black box; everything around it — the
//! variable registry, the constraint language and its semantics, the
//! incremental assertion stack, model extraction, blocking-clause enumeration
//! and min-max refinement — is verified.

use vstd::prelude::*;

pub mod domain;
pub mod expr;
pub mod registry;
mod oracle;
pub mod session;
pub mod builder;
pub mod queens;
pub mod cycle;
pub mod capacity;
pub mod enumerate;
pub mod optimize;

verus! {

/// Everything that can go wrong in the core, as distinct kinds.
///
/// The construction-time kinds (`DuplicateName`, `NotFound`, `InvalidDomain`)
/// report caller errors; `UnbalancedStack` and `NoModelAvailable` report
/// session misuse; `Unbound`, `OutOfDomain` and `OracleViolation` report a
/// value coming back from the oracle that breaks its contract.  None of them
/// is recovered internally.
#[derive(Clone, Copy, Debug, PartialEq, Eq, Structural)]
pub enum Error {
    DuplicateName,
    NotFound,
    InvalidDomain,
    UnbalancedStack,
    NoModelAvailable,
    Unbound,
    OutOfDomain,
    OracleViolation,
}

} // verus!
