use vstd::prelude::*;

verus! {

/// Failure conditions reported by the replay core.
///
/// `IndexOutOfRange` and `Underflow` signal caller bugs; `NotFound` and
/// `EmptyTree` are ordinary control-flow signals (an item was evicted, or no
/// weight has been inserted yet); `CapacityExceeded` arises only on a store
/// constructed with a maximum item count.
#[derive(Clone, Copy, Debug, PartialEq, Eq, Structural)]
pub enum ReplayError {
    /// A slot index at or past a sum tree's capacity.
    IndexOutOfRange,
    /// `sample` was called while the tree's total mass was zero.
    EmptyTree,
    /// The item identifier is unknown or its record was already removed.
    NotFound,
    /// A reference count was asked to drop below zero.
    Underflow,
    /// The store already holds its configured maximum number of items.
    CapacityExceeded,
}

} // verus!
