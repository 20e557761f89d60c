use vstd::prelude::*;

verus! {

/// A stable, opaque identity for one registered system.
#[derive(Clone, Copy, Debug, Hash, PartialEq, Eq, PartialOrd, Ord, Structural)]
pub struct StageId {
    pub id: u64,
}

impl StageId {
    /// The identity for the caller-chosen key `id`.
    pub fn of(id: u64) -> (s: StageId)
        ensures
            s.id == id,
    {
        StageId { id }
    }
}

} // verus!
