use vstd::prelude::*;
use crate::stage::StageId;

verus! {

/// Failure of a shared (read) borrow from the world.
#[derive(Clone, Copy, Debug, PartialEq, Eq, Structural)]
pub enum WorldBorrowError {
    /// The resource is not present in the world.
    NotPresent,
    /// The current system did not declare read access to the resource.
    InvalidAccess,
}

/// Failure of an exclusive (write) borrow from the world.
#[derive(Clone, Copy, Debug, PartialEq, Eq, Structural)]
pub enum WorldBorrowMutError {
    /// The resource is not present in the world.
    NotPresent,
    /// The current system did not declare write access to the resource.
    InvalidAccess,
}

/// Failure of `Registry::sort`, the compilation of a set of registered
/// systems into an execution plan.
#[derive(Clone, Copy, Debug, PartialEq, Eq, Structural)]
pub enum RegistrySortingError {
    /// The rule graph could not be traversed completely, which means the
    /// rules contain a cyclic reference.
    GraphVisitMissingNodes,
    /// The first stage tried to reference the second stage, but the latter
    /// was never registered.
    MissingStage(StageId, StageId),
    /// A `Parallel` rule asked for two systems to share a group, but the
    /// depths or access masks force them apart.
    UnsatisfiableParallelRules,
}

/// Failure of `Registry::insert`.
#[derive(Clone, Copy, Debug, PartialEq, Eq, Structural)]
pub enum StageError {
    /// The given stage has an invalid (reserved) identity.
    InvalidName,
    /// The given stage has no rules associated with it.
    MissingRules,
    /// A stage with the same identity was already registered.
    Overlapping,
}

} // verus!
