//! RINEX format revisions.

use vstd::prelude::*;

verus! {

/// A format revision: a (major, minor) pair, ordered lexicographically.
#[derive(Clone, Copy, PartialEq, Eq, Structural, Debug)]
pub struct Version {
    pub major: u8,
    pub minor: u8,
}

/// Lexicographic order on revisions.
pub open spec fn version_le(a: Version, b: Version) -> bool {
    a.major < b.major || (a.major == b.major && a.minor <= b.minor)
}

impl Version {
    pub fn new(major: u8, minor: u8) -> (r: Version)
        ensures
            r.major == major,
            r.minor == minor,
    {
        Version { major, minor }
    }

    /// Whether `self` is at or below `other` in (major, minor) order.
    pub fn le(&self, other: &Version) -> (r: bool)
        ensures
            r == version_le(*self, *other),
    {
        self.major < other.major || (self.major == other.major && self.minor <= other.minor)
    }
}

} // verus!
