//! A single position digit paired with the site that introduced it.

use vstd::prelude::*;

verus! {

/// Floor of the dense digit interval; reserved for the low sentinel and never
/// drawn by the allocator.
pub const PAGE_MIN: u64 = 0;

/// Ceiling of the dense digit interval; reserved for the high sentinel and
/// never drawn by the allocator.
pub const PAGE_MAX: u64 = u64::MAX;

/// One element of a position identifier: a digit in the dense page interval,
/// tagged with the site that minted it. Identifiers are ordered
/// lexicographically on `(digit, site)`.
#[derive(Clone, Copy, Debug, PartialEq, Eq, Structural)]
pub struct Id {
    pub digit: u64,
    pub site: i64,
}

/// Strict lexicographic order on `(digit, site)`.
pub open spec fn id_lt(a: Id, b: Id) -> bool {
    a.digit < b.digit || (a.digit == b.digit && a.site < b.site)
}

impl Id {
    pub fn new(digit: u64, site_id: i64) -> (r: Self)
        ensures
            r.digit == digit,
            r.site == site_id,
    {
        Id { digit, site: site_id }
    }

    /// Executable strict comparison, matching `id_lt`.
    pub fn lt(&self, other: &Id) -> (r: bool)
        ensures
            r == id_lt(*self, *other),
    {
        self.digit < other.digit || (self.digit == other.digit && self.site < other.site)
    }
}

} // verus!
