//! Monotonic revision counters and nonzero-by-convention identity numbers.

use vstd::prelude::*;

verus! {

/// A monotonic revision counter. Revision zero is the initial, authority-free value.
#[derive(Clone, Copy, Debug, PartialEq, Eq, Structural, PartialOrd, Ord, Hash)]
pub struct Revision(pub u64);

impl Revision {
    /// The initial revision.
    pub fn initial() -> (r: Self)
        ensures
            r.0 == 0,
    {
        Revision(0)
    }

    pub fn new(value: u64) -> (r: Self)
        ensures
            r.0 == value,
    {
        Revision(value)
    }

    pub fn get(self) -> (value: u64)
        ensures
            value == self.0,
    {
        self.0
    }

    /// The successor revision; the maximal revision is its own successor.
    pub fn next(self) -> (r: Self)
        ensures
            r.0 == (if self.0 == u64::MAX { self.0 as int } else { self.0 + 1 }),
    {
        if self.0 == u64::MAX {
            self
        } else {
            Revision(self.0 + 1)
        }
    }
}

/// A workload security identity number. Identity zero is reserved.
#[derive(Clone, Copy, Debug, PartialEq, Eq, Structural, PartialOrd, Ord, Hash)]
pub struct IdentityId(pub u32);

impl IdentityId {
    pub fn new(value: u32) -> (r: Self)
        ensures
            r.0 == value,
    {
        IdentityId(value)
    }

    pub fn get(self) -> (value: u32)
        ensures
            value == self.0,
    {
        self.0
    }
}

/// A network policy identifier. Policy zero is reserved.
#[derive(Clone, Copy, Debug, PartialEq, Eq, Structural, PartialOrd, Ord, Hash)]
pub struct PolicyId(pub u32);

impl PolicyId {
    pub fn new(value: u32) -> (r: Self)
        ensures
            r.0 == value,
    {
        PolicyId(value)
    }

    pub fn get(self) -> (value: u32)
        ensures
            value == self.0,
    {
        self.0
    }
}

} // verus!
