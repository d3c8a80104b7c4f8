use vstd::prelude::*;
use vstd::std_specs::convert::FromSpecImpl;

verus! {

/// The address of a node. Identifiers are ordered by their number, and a
/// topology lists its members from the lowest identifier upward.
#[derive(PartialEq, Eq, Structural, Hash, Clone, Copy, Debug, PartialOrd, Ord)]
pub struct RaftId(pub usize);

impl std::ops::Deref for RaftId {
    type Target = usize;

    fn deref(&self) -> (number: &usize)
        ensures
            *number == self.0,
    {
        &self.0
    }
}

impl From<usize> for RaftId {
    fn from(value: usize) -> (id: Self) {
        RaftId(value)
    }
}

impl FromSpecImpl<usize> for RaftId {
    open spec fn obeys_from_spec() -> bool {
        true
    }

    open spec fn from_spec(value: usize) -> Self {
        RaftId(value)
    }
}

} // verus!
