use vstd::prelude::*;

use crate::errors::ReplayError;

verus! {

/// A shared-ownership counter attached to an item identity.
///
/// It tracks how many logical owners (tables, in-flight samples, pinned
/// references) currently hold a claim on the item.  The counter does not own
/// or reference the item it counts; that linkage lives in the metadata store.
pub struct RefCount {
    count: u64,
}

impl RefCount {
    /// The current number of owners.
    pub closed spec fn count_spec(&self) -> u64 {
        self.count
    }

    /// Constructs a counter with the given starting count (typically 1).
    pub fn new(initial: u64) -> (r: RefCount)
        ensures
            r.count_spec() == initial,
    {
        RefCount { count: initial }
    }

    /// Adds one owner and returns the resulting count.
    pub fn increment(&mut self) -> (r: u64)
        requires
            old(self).count_spec() < u64::MAX,
        ensures
            final(self).count_spec() == old(self).count_spec() + 1,
            r == final(self).count_spec(),
    {
        self.count = self.count + 1;
        self.count
    }

    /// Releases one owner and returns the resulting count; a count that is
    /// already zero is left untouched and reported as an underflow, which
    /// indicates a double release in a caller.
    pub fn decrement(&mut self) -> (r: Result<u64, ReplayError>)
        ensures
            old(self).count_spec() == 0 ==> *final(self) == *old(self)
                && r == Err::<u64, ReplayError>(ReplayError::Underflow),
            old(self).count_spec() > 0 ==> final(self).count_spec() == old(self).count_spec() - 1
                && r == Ok::<u64, ReplayError>(final(self).count_spec()),
    {
        if self.count == 0 {
            Err(ReplayError::Underflow)
        } else {
            self.count = self.count - 1;
            Ok(self.count)
        }
    }

    /// Reads the current count.  The value is observational only: under
    /// concurrent use it may be stale as soon as it is returned.
    pub fn get(&self) -> (r: u64)
        ensures
            r == self.count_spec(),
    {
        self.count
    }
}

} // verus!
