//! The smallest unit of change in a document.

use crate::id::{Id, PAGE_MAX, PAGE_MIN};
use crate::position::{create_ok, floor_at, grown_len, mint_well_formed, pos_lt, Position};
use vstd::prelude::*;

verus! {

/// Mathematical image of an atom: the identifier content of its position,
/// its logical clock and its character. Replicas exchange atoms over a wire,
/// so two atoms are the same atom exactly when their images coincide.
#[verifier::ext_equal]
pub struct AtomView {
    pub position: Seq<Id>,
    pub clock: u64,
    pub val: char,
}

/// One character tagged with a dense position and a logical clock. Atoms
/// order by position alone; the clock is informational and immutable.
#[derive(Debug)]
pub struct Atom {
    pub clock: u64,
    pub val: char,
    pub position: Position,
}

impl View for Atom {
    type V = AtomView;

    open spec fn view(&self) -> AtomView {
        AtomView { position: self.position@, clock: self.clock, val: self.val }
    }
}

impl Clone for Atom {
    fn clone(&self) -> (r: Self)
        ensures
            r@ == self@,
    {
        Atom { clock: self.clock, val: self.val, position: self.position.clone() }
    }
}

impl PartialEq for Atom {
    fn eq(&self, other: &Atom) -> (r: bool) {
        self.clock == other.clock && self.val == other.val && self.position == other.position
    }
}

impl Eq for Atom {

}

impl vstd::std_specs::cmp::PartialEqSpecImpl for Atom {
    open spec fn obeys_eq_spec() -> bool {
        true
    }

    open spec fn eq_spec(&self, other: &Atom) -> bool {
        self@ == other@
    }
}

impl Atom {
    pub fn new(position: Position, clock: u64, val: char) -> (r: Self)
        ensures
            r@ == (AtomView { position: position@, clock, val }),
    {
        Atom { position, clock, val }
    }

    /// Mints the atom for a locally inserted character: a fresh position
    /// strictly between the two flanking atoms, clock zero. The position is
    /// a prefix read from the left flank plus one final identifier tagged
    /// with the minting site, whose digit stays strictly inside the page
    /// interval; on a well-formed-mint pair so does the first digit.
    pub fn create(c: char, site: i64, c1: &Atom, c2: &Atom) -> (r: Self)
        requires
            pos_lt(c1@.position, c2@.position),
            create_ok(site, c1@.position, c2@.position),
        ensures
            r@.val == c,
            r@.clock == 0,
            pos_lt(c1@.position, r@.position),
            pos_lt(r@.position, c2@.position),
            r@.position.len() >= 1,
            PAGE_MIN < r@.position.last().digit < PAGE_MAX,
            r@.position.last().site == site,
            r@.position.len() <= grown_len(c1@.position, c2@.position),
            forall|k: int| #![trigger r@.position[k]]
                0 <= k < r@.position.len() - 1 ==> r@.position[k] == floor_at(
                    c1@.position,
                    site,
                    k,
                ),
            mint_well_formed(site, c1@.position, c2@.position) ==> PAGE_MIN < r@.position[0].digit
                < PAGE_MAX,
    {
        Atom {
            position: Position::create(site, c1.position.0.as_slice(), c2.position.0.as_slice()),
            clock: 0,
            val: c,
        }
    }

    /// Executable strict position order on atoms.
    pub fn precedes(&self, other: &Atom) -> (r: bool)
        ensures
            r == pos_lt(self@.position, other@.position),
    {
        self.position.lt(&other.position)
    }
}

} // verus!
