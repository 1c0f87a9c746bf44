//! A count that is recorded when the work it counts ends.
use vstd::prelude::*;

verus! {

/// Counts up to the value that is recorded in the end.
#[derive(Clone, Copy, Debug, PartialEq, Eq, Structural)]
pub struct DropRecord {
    pub count: u64,
}

impl DropRecord {
    /// A count that starts at zero.
    pub fn new() -> (r: DropRecord)
        ensures
            r.count == 0,
    {
        DropRecord { count: 0 }
    }

    /// Counts `value` more.
    pub fn add(&mut self, value: u64)
        requires
            old(self).count + value <= u64::MAX,
        ensures
            final(self).count == old(self).count + value,
    {
        self.count = self.count + value;
    }

    /// Replaces the count.
    pub fn set(&mut self, value: u64)
        ensures
            final(self).count == value,
    {
        self.count = value;
    }

    /// The count so far: what is recorded in the end.
    pub fn get(&self) -> (r: u64)
        ensures
            r == self.count,
    {
        self.count
    }
}

} // verus!
