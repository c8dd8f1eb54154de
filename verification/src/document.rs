//! The replicated document: an ordered sequence of atoms bounded by two
//! virtual sentinels, strictly sorted by position.
//!
//! Local edits name visible offsets; the document mints a fresh position
//! between the flanking atoms and returns the new atom for emission to
//! peers. Remote edits name positions; the document locates them by binary
//! search. Sortedness and the sentinels are invariant under every operation,
//! so the visible content is a pure function of the set of atoms present.

use crate::atom::{Atom, AtomView};
use crate::id::{Id, PAGE_MAX, PAGE_MIN};
use crate::range::{Point, Range};
use crate::position::{
    create_ok, floor_at, grown_len, lemma_pos_lt_from_diverge, lemma_pos_order_asym,
    lemma_pos_order_connected, lemma_pos_order_trans, mint_well_formed, pos_lt, Position,
};
use vstd::prelude::*;

verus! {

/// The character carried by the sentinel atoms; never part of visible
/// content.
pub const NIL: char = '\0';

/// The errors the document reports by value to its caller.
#[derive(Clone, Copy, Debug, PartialEq, Eq, Structural)]
pub enum DocError {
    /// A local edit named an offset outside the visible content; the
    /// document is unchanged.
    OutOfRange,
    /// A remote insert carried a position that is already present; the
    /// document is unchanged.
    Duplicate,
    /// A remote delete named a position that is absent.
    NotFound,
    /// A wire atom has an empty position or a position whose first digit is
    /// a sentinel digit.
    MalformedAtom,
    /// The flanking atoms of a local insert admit no safe allocation —
    /// either no strictly intermediate own-site position exists, or every
    /// one this site could mint would carry a sentinel first digit; the
    /// document is unchanged rather than corrupted.
    ContractViolation,
}

/// The low sentinel of a document with the given site.
pub open spec fn min_sentinel(site: i64) -> AtomView {
    AtomView { position: seq![Id { digit: PAGE_MIN, site }], clock: 0, val: NIL }
}

/// The high sentinel of a document with the given site.
pub open spec fn max_sentinel(site: i64) -> AtomView {
    AtomView { position: seq![Id { digit: PAGE_MAX, site }], clock: 0, val: NIL }
}

/// Strict sortedness by position: the heart of the document invariant.
pub open spec fn strictly_sorted(s: Seq<AtomView>) -> bool {
    forall|i: int, j: int| 0 <= i < j < s.len() ==> pos_lt(s[i].position, s[j].position)
}

/// Whether some atom of `s` carries exactly the position `p`.
pub open spec fn contains_pos(s: Seq<AtomView>, p: Seq<Id>) -> bool {
    exists|k: int| 0 <= k < s.len() && s[k].position == p
}

/// A wire atom the document must reject: an empty position, or a first digit
/// that collides with the sentinel space.
pub open spec fn malformed(m: AtomView) -> bool {
    m.position.len() == 0 || m.position[0].digit == PAGE_MIN || m.position[0].digit == PAGE_MAX
}

/// One replica's document: the site tag it mints identifiers with, and the
/// atoms in position order, always bracketed by the two sentinels.
#[derive(Debug)]
pub struct Document {
    pub atoms: Vec<Atom>,
    pub site: i64,
}

impl View for Document {
    type V = Seq<AtomView>;

    open spec fn view(&self) -> Seq<AtomView> {
        self.atoms@.map_values(|a: Atom| a@)
    }
}

impl Document {
    /// The document invariant: sentinels at both ends and strict sortedness
    /// by position in between. Every operation requires and preserves it.
    pub open spec fn wf(&self) -> bool {
        &&& self@.len() >= 2
        &&& self@[0] == min_sentinel(self.site)
        &&& self@[self@.len() - 1] == max_sentinel(self.site)
        &&& strictly_sorted(self@)
    }

    /// The visible characters: the values of the non-sentinel atoms in
    /// position order.
    pub open spec fn spec_content(&self) -> Seq<char> {
        self@.subrange(1, self@.len() - 1).map_values(|m: AtomView| m.val)
    }

    /// Creates a new empty document for a site; the site must be unique
    /// across all replicas, which is the bootstrap's responsibility.
    pub fn new(site: i64) -> (r: Document)
        ensures
            r.wf(),
            r.site == site,
            r@ =~= seq![min_sentinel(site), max_sentinel(site)],
            r.spec_content() =~= Seq::<char>::empty(),
    {
        let mut atoms: Vec<Atom> = Vec::new();
        let mut lo_ids: Vec<Id> = Vec::new();
        lo_ids.push(Id { digit: PAGE_MIN, site });
        let mut hi_ids: Vec<Id> = Vec::new();
        hi_ids.push(Id { digit: PAGE_MAX, site });
        atoms.push(Atom::new(Position(lo_ids), 0, NIL));
        atoms.push(Atom::new(Position(hi_ids), 0, NIL));
        let r = Document { atoms, site };
        proof {
            assert(r@[0] =~= min_sentinel(site));
            assert(r@[1] =~= max_sentinel(site));
            lemma_pos_lt_from_diverge(r@[0].position, r@[1].position, 0, 0);
            assert(r@ =~= seq![min_sentinel(site), max_sentinel(site)]);
            assert(r.spec_content() =~= Seq::<char>::empty());
        }
        r
    }

    /// The low sentinel as a concrete atom.
    pub fn virtual_min(&self) -> (r: Atom)
        ensures
            r@ == min_sentinel(self.site),
    {
        let mut ids: Vec<Id> = Vec::new();
        ids.push(Id { digit: PAGE_MIN, site: self.site });
        let r = Atom::new(Position(ids), 0, NIL);
        proof {
            assert(r@ =~= min_sentinel(self.site));
        }
        r
    }

    /// The high sentinel as a concrete atom.
    pub fn virtual_max(&self) -> (r: Atom)
        ensures
            r@ == max_sentinel(self.site),
    {
        let mut ids: Vec<Id> = Vec::new();
        ids.push(Id { digit: PAGE_MAX, site: self.site });
        let r = Atom::new(Position(ids), 0, NIL);
        proof {
            assert(r@ =~= max_sentinel(self.site));
        }
        r
    }

    /// The number of visible characters.
    pub fn visible_len(&self) -> (r: usize)
        requires
            self.wf(),
        ensures
            r == self.spec_content().len(),
            r == self@.len() - 2,
    {
        self.atoms.len() - 2
    }

    /// Lower-bound binary search by position over the full atom sequence:
    /// returns the first index whose position is not below `p`, and whether
    /// that index carries exactly `p`.
    fn search(&self, p: &Position) -> (r: (bool, usize))
        requires
            self.wf(),
        ensures
            r.1 <= self@.len(),
            forall|k: int| 0 <= k < r.1 ==> pos_lt(self@[k].position, p@),
            forall|k: int| r.1 <= k < self@.len() ==> !pos_lt(self@[k].position, p@),
            r.0 <==> (r.1 < self@.len() && self@[r.1 as int].position == p@),
            r.0 == contains_pos(self@, p@),
    {
        let mut lo: usize = 0;
        let mut hi: usize = self.atoms.len();
        while lo < hi
            invariant
                lo <= hi <= self@.len(),
                self@.len() == self.atoms@.len(),
                strictly_sorted(self@),
                forall|k: int| 0 <= k < lo ==> pos_lt(self@[k].position, p@),
                forall|k: int| hi <= k < self@.len() ==> !pos_lt(self@[k].position, p@),
            decreases hi - lo,
        {
            let mid = lo + (hi - lo) / 2;
            let a = &self.atoms[mid];
            if a.position.lt(p) {
                proof {
                    assert forall|k: int| 0 <= k < mid + 1 implies pos_lt(
                        self@[k].position,
                        p@,
                    ) by {
                        if k < mid {
                            lemma_pos_order_trans(self@[k].position, self@[mid as int].position, p@);
                        }
                    }
                }
                lo = mid + 1;
            } else {
                proof {
                    assert forall|k: int| mid <= k < self@.len() implies !pos_lt(
                        self@[k].position,
                        p@,
                    ) by {
                        if k > mid && pos_lt(self@[k].position, p@) {
                            lemma_pos_order_trans(self@[mid as int].position, self@[k].position, p@);
                        }
                    }
                }
                hi = mid;
            }
        }
        if lo < self.atoms.len() {
            let a = &self.atoms[lo];
            if p.lt(&a.position) {
                proof {
                    if self@[lo as int].position == p@ {
                        lemma_pos_order_asym(p@, self@[lo as int].position);
                    }
                    if contains_pos(self@, p@) {
                        let k = choose|k: int| 0 <= k < self@.len() && self@[k].position == p@;
                        if k < lo as int {
                            lemma_pos_order_asym(self@[k].position, p@);
                        } else {
                            lemma_pos_order_asym(p@, self@[lo as int].position);
                            if k > lo as int {
                                lemma_pos_order_trans(
                                    p@,
                                    self@[lo as int].position,
                                    self@[k].position,
                                );
                            }
                        }
                    }
                }
                (false, lo)
            } else {
                proof {
                    lemma_pos_order_connected(p@, self@[lo as int].position);
                }
                (true, lo)
            }
        } else {
            proof {
                if contains_pos(self@, p@) {
                    let k = choose|k: int| 0 <= k < self@.len() && self@[k].position == p@;
                    lemma_pos_order_asym(self@[k].position, p@);
                }
            }
            (false, lo)
        }
    }

    /// Applies an insertion received from a peer. The atom is located by its
    /// position: a malformed position is rejected, a position already
    /// present is reported as `Duplicate` with no state change, and
    /// otherwise the atom enters at its unique sorted place; the visible
    /// offset where it now appears is returned for the display layer.
    pub fn remote_insert(&mut self, atom: &Atom) -> (r: Result<usize, DocError>)
        requires
            old(self).wf(),
        ensures
            final(self).site == old(self).site,
            final(self).wf(),
            r matches Err(_) ==> final(self)@ == old(self)@,
            (r == Err::<usize, DocError>(DocError::MalformedAtom)) <==> malformed(atom@),
            (r == Err::<usize, DocError>(DocError::Duplicate)) <==> (!malformed(atom@)
                && contains_pos(old(self)@, atom@.position)),
            (r matches Ok(_)) <==> (!malformed(atom@) && !contains_pos(
                old(self)@,
                atom@.position,
            )),
            r matches Ok(v) ==> {
                &&& 1 <= v as int + 1 < old(self)@.len()
                &&& final(self)@ == old(self)@.insert(v as int + 1, atom@)
                &&& pos_lt(old(self)@[v as int].position, atom@.position)
                &&& pos_lt(atom@.position, old(self)@[v as int + 1].position)
                &&& final(self).spec_content() == old(self).spec_content().insert(
                    v as int,
                    atom@.val,
                )
            },
    {
        let plen = atom.position.len();
        if plen == 0 {
            return Err(DocError::MalformedAtom);
        }
        let first: Id = atom.position.0[0];
        if first.digit == PAGE_MIN || first.digit == PAGE_MAX {
            return Err(DocError::MalformedAtom);
        }
        let (found, idx) = self.search(&atom.position);
        if found {
            return Err(DocError::Duplicate);
        }
        proof {
            lemma_pos_lt_from_diverge(self@[0].position, atom@.position, 0, 0);
            lemma_pos_lt_from_diverge(atom@.position, self@[self@.len() - 1].position, 0, 0);
            lemma_pos_order_asym(atom@.position, self@[self@.len() - 1].position);
            assert(1 <= idx < self@.len());
            assert forall|k: int| idx <= k < self@.len() implies pos_lt(
                atom@.position,
                self@[k].position,
            ) by {
                if !pos_lt(atom@.position, self@[k].position) {
                    lemma_pos_order_connected(atom@.position, self@[k].position);
                    assert(contains_pos(self@, atom@.position));
                }
            }
        }
        let ghost old_view = self@;
        let ghost old_content = self.spec_content();
        let a2 = atom.clone();
        self.atoms.insert(idx, a2);
        proof {
            assert(self@ =~= old_view.insert(idx as int, atom@));
            old_view.insert_ensures(idx as int, atom@);
            lemma_sorted_insert(old_view, idx as int, atom@);
            assert(self@[0] == old_view[0]);
            assert(self@[self@.len() - 1] == old_view[old_view.len() - 1]);
            old_content.insert_ensures(idx as int - 1, atom@.val);
            assert(self.spec_content() =~= old_content.insert(idx as int - 1, atom@.val));
        }
        Ok(idx - 1)
    }

    /// Applies a deletion received from a peer: the atom with exactly the
    /// given position is removed and the visible offset it occupied is
    /// returned; an absent position is reported as `NotFound` so the adapter
    /// may redeliver it later.
    pub fn remote_delete(&mut self, atom: &Atom) -> (r: Result<usize, DocError>)
        requires
            old(self).wf(),
        ensures
            final(self).site == old(self).site,
            final(self).wf(),
            r matches Err(_) ==> final(self)@ == old(self)@,
            (r == Err::<usize, DocError>(DocError::MalformedAtom)) <==> malformed(atom@),
            (r == Err::<usize, DocError>(DocError::NotFound)) <==> (!malformed(atom@)
                && !contains_pos(old(self)@, atom@.position)),
            (r matches Ok(_)) <==> (!malformed(atom@) && contains_pos(old(self)@, atom@.position)),
            r matches Ok(v) ==> {
                &&& 1 <= v as int + 1 < old(self)@.len() - 1
                &&& old(self)@[v as int + 1].position == atom@.position
                &&& final(self)@ == old(self)@.remove(v as int + 1)
                &&& final(self).spec_content() == old(self).spec_content().remove(v as int)
            },
    {
        let plen = atom.position.len();
        if plen == 0 {
            return Err(DocError::MalformedAtom);
        }
        let first: Id = atom.position.0[0];
        if first.digit == PAGE_MIN || first.digit == PAGE_MAX {
            return Err(DocError::MalformedAtom);
        }
        let (found, idx) = self.search(&atom.position);
        if !found {
            return Err(DocError::NotFound);
        }
        proof {
            lemma_pos_lt_from_diverge(self@[0].position, atom@.position, 0, 0);
            lemma_pos_lt_from_diverge(atom@.position, self@[self@.len() - 1].position, 0, 0);
            lemma_pos_order_asym(self@[0].position, atom@.position);
            lemma_pos_order_asym(atom@.position, self@[self@.len() - 1].position);
            assert(1 <= idx < self@.len() - 1);
        }
        let ghost old_view = self@;
        let ghost old_content = self.spec_content();
        self.atoms.remove(idx);
        proof {
            assert(self@ =~= old_view.remove(idx as int));
            old_view.remove_ensures(idx as int);
            lemma_sorted_remove(old_view, idx as int);
            assert(self@[0] == old_view[0]);
            assert(self@[self@.len() - 1] == old_view[old_view.len() - 1]);
            old_content.remove_ensures(idx as int - 1);
            assert(self.spec_content() =~= old_content.remove(idx as int - 1));
        }
        Ok(idx - 1)
    }

    /// Inserts a character at a visible offset. The atoms flanking the
    /// offset are read, a fresh position strictly between theirs is minted
    /// for this site, and the new atom is returned for emission to peers.
    /// An offset beyond the content is `OutOfRange`. A flanking pair on
    /// which allocation cannot be performed safely — either no strictly
    /// intermediate own-site position exists, or any minted one would carry
    /// a sentinel first digit and be refused by every peer — is
    /// `ContractViolation`; in both error cases the document is unchanged.
    ///
    /// A returned atom is never malformed, its final identifier carries
    /// this document's site with a digit strictly inside the page interval,
    /// and its position is at most one level longer than the longer flank.
    pub fn local_insert(&mut self, offset: usize, ch: char) -> (r: Result<Atom, DocError>)
        requires
            old(self).wf(),
        ensures
            final(self).site == old(self).site,
            final(self).wf(),
            r matches Err(_) ==> final(self)@ == old(self)@,
            (r == Err::<Atom, DocError>(DocError::OutOfRange)) <==> offset as int + 2 > old(
                self,
            )@.len(),
            offset as int + 2 <= old(self)@.len() ==> ((r == Err::<Atom, DocError>(
                DocError::ContractViolation,
            )) <==> !(create_ok(
                old(self).site,
                old(self)@[offset as int].position,
                old(self)@[offset as int + 1].position,
            ) && mint_well_formed(
                old(self).site,
                old(self)@[offset as int].position,
                old(self)@[offset as int + 1].position,
            ))),
            (r matches Ok(_)) <==> (offset as int + 2 <= old(self)@.len() && create_ok(
                old(self).site,
                old(self)@[offset as int].position,
                old(self)@[offset as int + 1].position,
            ) && mint_well_formed(
                old(self).site,
                old(self)@[offset as int].position,
                old(self)@[offset as int + 1].position,
            )),
            r matches Ok(a) ==> {
                &&& a@.val == ch
                &&& a@.clock == 0
                &&& pos_lt(old(self)@[offset as int].position, a@.position)
                &&& pos_lt(a@.position, old(self)@[offset as int + 1].position)
                &&& !contains_pos(old(self)@, a@.position)
                &&& !malformed(a@)
                &&& a@.position.last().site == old(self).site
                &&& PAGE_MIN < a@.position.last().digit < PAGE_MAX
                &&& a@.position.len() <= grown_len(
                    old(self)@[offset as int].position,
                    old(self)@[offset as int + 1].position,
                )
                &&& (forall|k: int| #![trigger a@.position[k]]
                    0 <= k < a@.position.len() - 1 ==> a@.position[k] == floor_at(
                        old(self)@[offset as int].position,
                        old(self).site,
                        k,
                    ))
                &&& final(self)@ == old(self)@.insert(offset as int + 1, a@)
                &&& final(self).spec_content() == old(self).spec_content().insert(
                    offset as int,
                    ch,
                )
            },
    {
        let n = self.atoms.len();
        if offset > n - 2 {
            return Err(DocError::OutOfRange);
        }
        let ok = {
            let l = &self.atoms[offset];
            let rt = &self.atoms[offset + 1];
            Position::can_create(self.site, l.position.0.as_slice(), rt.position.0.as_slice())
                && Position::can_mint(self.site, l.position.0.as_slice(), rt.position.0.as_slice())
        };
        if !ok {
            return Err(DocError::ContractViolation);
        }
        proof {
            assert(pos_lt(self@[offset as int].position, self@[offset as int + 1].position));
        }
        let a = {
            let l = &self.atoms[offset];
            let rt = &self.atoms[offset + 1];
            Atom::create(ch, self.site, l, rt)
        };
        proof {
            assert forall|k: int| 0 <= k < offset as int + 1 implies pos_lt(
                self@[k].position,
                a@.position,
            ) by {
                if k < offset as int {
                    lemma_pos_order_trans(
                        self@[k].position,
                        self@[offset as int].position,
                        a@.position,
                    );
                }
            }
            assert forall|k: int| offset as int + 1 <= k < self@.len() implies pos_lt(
                a@.position,
                self@[k].position,
            ) by {
                if k > offset as int + 1 {
                    lemma_pos_order_trans(
                        a@.position,
                        self@[offset as int + 1].position,
                        self@[k].position,
                    );
                }
            }
            assert forall|k: int| 0 <= k < self@.len() implies self@[k].position
                != a@.position by {
                if k < offset as int + 1 {
                    lemma_pos_order_asym(self@[k].position, a@.position);
                } else {
                    lemma_pos_order_asym(a@.position, self@[k].position);
                }
            }
        }
        let ghost old_view = self@;
        let ghost old_content = self.spec_content();
        let a2 = a.clone();
        self.atoms.insert(offset + 1, a2);
        proof {
            assert(self@ =~= old_view.insert(offset as int + 1, a@));
            old_view.insert_ensures(offset as int + 1, a@);
            lemma_sorted_insert(old_view, offset as int + 1, a@);
            assert(self@[0] == old_view[0]);
            assert(self@[self@.len() - 1] == old_view[old_view.len() - 1]);
            old_content.insert_ensures(offset as int, ch);
            assert(self.spec_content() =~= old_content.insert(offset as int, ch));
        }
        Ok(a)
    }

    /// Deletes the character at a visible offset and returns the removed
    /// atom for emission to peers. An offset outside `[0, visible_len)` is
    /// `OutOfRange` and leaves the document unchanged.
    pub fn local_delete(&mut self, offset: usize) -> (r: Result<Atom, DocError>)
        requires
            old(self).wf(),
        ensures
            final(self).site == old(self).site,
            final(self).wf(),
            r matches Err(_) ==> final(self)@ == old(self)@,
            (r == Err::<Atom, DocError>(DocError::OutOfRange)) <==> offset as int + 2 >= old(
                self,
            )@.len(),
            (r matches Ok(_)) <==> offset as int + 2 < old(self)@.len(),
            r matches Ok(a) ==> {
                &&& a@ == old(self)@[offset as int + 1]
                &&& final(self)@ == old(self)@.remove(offset as int + 1)
                &&& final(self).spec_content() == old(self).spec_content().remove(offset as int)
            },
    {
        let n = self.atoms.len();
        if offset >= n - 2 {
            return Err(DocError::OutOfRange);
        }
        let ghost old_view = self@;
        let ghost old_content = self.spec_content();
        let a = self.atoms.remove(offset + 1);
        proof {
            assert(self@ =~= old_view.remove(offset as int + 1));
            old_view.remove_ensures(offset as int + 1);
            lemma_sorted_remove(old_view, offset as int + 1);
            assert(self@[0] == old_view[0]);
            assert(self@[self@.len() - 1] == old_view[old_view.len() - 1]);
            old_content.remove_ensures(offset as int);
            assert(self.spec_content() =~= old_content.remove(offset as int));
        }
        Ok(a)
    }

    /// Inserts an already-minted atom at the place its position determines,
    /// as when re-applying an atom that was previously removed. The position
    /// must be fresh: inserting a present position is a programmer error,
    /// which the precondition rules out. Returns the raw index where the
    /// atom landed, as a degenerate range.
    pub fn insert_val(&mut self, atom: &Atom) -> (r: Option<Range>)
        requires
            old(self).wf(),
            !malformed(atom@),
            !contains_pos(old(self)@, atom@.position),
        ensures
            final(self).site == old(self).site,
            final(self).wf(),
            r is Some,
            r matches Some(rg) ==> {
                &&& rg.start == rg.end
                &&& rg.start.row == rg.start.column
                &&& 1 <= rg.start.row < old(self)@.len()
                &&& final(self)@ == old(self)@.insert(rg.start.row as int, atom@)
            },
    {
        match self.remote_insert(atom) {
            Ok(v) => {
                let n = self.atoms.len();
                proof {
                    assert(v as int + 1 < n as int);
                }
                Some(Range::new((v + 1, v + 1), (v + 1, v + 1)))
            },
            Err(_) => unreached(),
        }
    }

    /// Deletes the atom whose position equals the given atom's, locating it
    /// by binary search; `None`, with no state change, when no such atom is
    /// present or the position is malformed. Returns the raw index the atom
    /// occupied, as a degenerate range.
    pub fn delete_val(&mut self, val: &Atom) -> (r: Option<Range>)
        requires
            old(self).wf(),
        ensures
            final(self).site == old(self).site,
            final(self).wf(),
            r is None ==> final(self)@ == old(self)@,
            (r is Some) <==> (!malformed(val@) && contains_pos(old(self)@, val@.position)),
            r matches Some(rg) ==> {
                &&& rg.start == rg.end
                &&& rg.start.row == rg.start.column
                &&& 1 <= rg.start.row < old(self)@.len() - 1
                &&& old(self)@[rg.start.row as int].position == val@.position
                &&& final(self)@ == old(self)@.remove(rg.start.row as int)
            },
    {
        match self.remote_delete(val) {
            Ok(v) => {
                let n = self.atoms.len();
                proof {
                    assert(v as int + 1 < n as int);
                }
                Some(Range::new((v + 1, v + 1), (v + 1, v + 1)))
            },
            Err(_) => None,
        }
    }

    /// The visible content, aggregated into a single string in position
    /// order. An empty document produces an empty string.
    pub fn content(&self) -> (r: String)
        requires
            self.wf(),
        ensures
            r@ == self.spec_content(),
    {
        let mut r = String::new();
        let n = self.atoms.len();
        let mut k: usize = 1;
        while k < n - 1
            invariant
                1 <= k <= n - 1,
                n >= 2,
                n == self@.len(),
                n == self.atoms@.len(),
                r@ == self@.subrange(1, k as int).map_values(|m: AtomView| m.val),
            decreases n - 1 - k,
        {
            let a = &self.atoms[k];
            push_char(&mut r, a.val);
            proof {
                assert(self@.subrange(1, k as int + 1) =~= self@.subrange(1, k as int).push(
                    self@[k as int],
                ));
                assert(self@.subrange(1, k as int + 1).map_values(|m: AtomView| m.val)
                    =~= self@.subrange(1, k as int).map_values(|m: AtomView| m.val).push(
                    self@[k as int].val,
                ));
            }
            k += 1;
        }
        proof {
            assert(r@ =~= self.spec_content());
        }
        r
    }
}

/// The visible index where display row `row` begins: row zero begins at
/// index zero, each later row right after the corresponding newline; `None`
/// when the content has fewer rows.
pub open spec fn spec_line_start(c: Seq<char>, row: nat) -> Option<int>
    decreases c.len(),
{
    if row == 0 {
        Some(0)
    } else if c.len() == 0 {
        None
    } else {
        let rest = if c[0] == '\n' {
            spec_line_start(c.drop_first(), (row - 1) as nat)
        } else {
            spec_line_start(c.drop_first(), row)
        };
        match rest {
            Some(i) => Some(i + 1),
            None => None,
        }
    }
}

/// A row that exists starts within the content, and the content holds at
/// least one character for every row before it.
pub proof fn lemma_line_start_bounds(c: Seq<char>, row: nat)
    ensures
        spec_line_start(c, row) matches Some(v) ==> row <= c.len() && 0 <= v <= c.len(),
    decreases c.len(),
{
    if row == 0 {
    } else if c.len() == 0 {
    } else {
        if c[0] == '\n' {
            lemma_line_start_bounds(c.drop_first(), (row - 1) as nat);
        } else {
            lemma_line_start_bounds(c.drop_first(), row);
        }
    }
}

/// Row starts strictly increase: the next row begins after at least the
/// newline that ends this one.
pub proof fn lemma_line_start_mono(c: Seq<char>, row: nat)
    ensures
        spec_line_start(c, (row + 1) as nat) matches Some(v1) ==> (spec_line_start(c, row) matches
            Some(v0) && v0 < v1),
    decreases c.len(),
{
    if c.len() == 0 {
    } else if row == 0 {
        if c[0] != '\n' {
            lemma_line_start_mono(c.drop_first(), 0);
        }
    } else {
        if c[0] == '\n' {
            lemma_line_start_mono(c.drop_first(), (row - 1) as nat);
        } else {
            lemma_line_start_mono(c.drop_first(), row);
        }
    }
}

/// The raw bounds `[lo, hi)`, in the full atom sequence, of display row
/// `row`: row zero opens with the low sentinel, the last row closes with
/// the high one, and every other row spans from just after its starting
/// newline through the newline that ends it.
pub open spec fn spec_row_bounds(c: Seq<char>, row: nat) -> Option<(int, int)> {
    match spec_line_start(c, row) {
        Some(vs) => {
            let lo = if row == 0 {
                0int
            } else {
                vs + 1
            };
            let hi = match spec_line_start(c, (row + 1) as nat) {
                Some(vn) => vn + 1,
                None => c.len() as int + 2,
            };
            Some((lo, hi))
        },
        None => None,
    }
}

/// The visible offset of a point in the rendered content: the start of its
/// row plus its column, provided both land inside the content.
pub open spec fn spec_point_offset(c: Seq<char>, p: Point) -> Option<int> {
    match spec_line_start(c, p.row as nat) {
        Some(vs) => if vs + p.column <= c.len() {
            Some(vs + p.column)
        } else {
            None
        },
        None => None,
    }
}

impl Document {
    /// The visible offset where display row `row` starts, or `None` when
    /// the rendered content has fewer rows.
    pub fn line_start(&self, row: usize) -> (r: Option<usize>)
        requires
            self.wf(),
        ensures
            r is Some <==> spec_line_start(self.spec_content(), row as nat) is Some,
            r matches Some(v) ==> spec_line_start(self.spec_content(), row as nat) == Some(
                v as int,
            ) && v <= self.spec_content().len(),
    {
        let ghost c = self.spec_content();
        let n = self.atoms.len();
        let mut j: usize = 0;
        let mut remaining: usize = row;
        proof {
            assert(c.skip(0) =~= c);
        }
        while j < n - 2 && remaining > 0
            invariant
                n >= 2,
                n == self@.len(),
                n == self.atoms@.len(),
                j <= n - 2,
                remaining <= row,
                c == self.spec_content(),
                c.len() == n - 2,
                spec_line_start(c, row as nat) == (match spec_line_start(
                    c.skip(j as int),
                    remaining as nat,
                ) {
                    Some(i) => Some(i + j as int),
                    None => None::<int>,
                }),
            decreases n - 2 - j,
        {
            let a = &self.atoms[j + 1];
            proof {
                assert(c.skip(j as int).len() == n - 2 - j);
                assert(c.skip(j as int)[0] == c[j as int]);
                assert(c[j as int] == self@[j as int + 1].val);
                assert(c.skip(j as int).drop_first() =~= c.skip(j as int + 1));
            }
            if a.val == '\n' {
                remaining -= 1;
            }
            j += 1;
        }
        if remaining == 0 {
            proof {
                lemma_line_start_bounds(c, row as nat);
            }
            Some(j)
        } else {
            proof {
                assert(c.skip(j as int).len() == 0);
            }
            None
        }
    }

    /// The atoms of display row `row`, bounded by the raw row bounds: the
    /// first row opens with the low sentinel and the last closes with the
    /// high one, so columns within a row count from those bounds. `None`
    /// when the content has fewer rows.
    pub fn line(&self, row: usize) -> (r: Option<Vec<Atom>>)
        requires
            self.wf(),
        ensures
            r is Some <==> spec_row_bounds(self.spec_content(), row as nat) is Some,
            r matches Some(v) ==> (spec_row_bounds(self.spec_content(), row as nat) matches Some(b)
                && v@.map_values(|a: Atom| a@) == self@.subrange(b.0, b.1)),
    {
        let n = self.atoms.len();
        match self.line_start(row) {
            None => None,
            Some(vs) => {
                proof {
                    lemma_line_start_bounds(self.spec_content(), row as nat);
                    lemma_line_start_mono(self.spec_content(), row as nat);
                }
                let lo: usize = if row == 0 {
                    0
                } else {
                    vs + 1
                };
                let hi: usize = match self.line_start(row + 1) {
                    Some(vn) => vn + 1,
                    None => n,
                };
                proof {
                    lemma_line_start_bounds(self.spec_content(), (row + 1) as nat);
                }
                let mut v: Vec<Atom> = Vec::new();
                let mut k: usize = lo;
                while k < hi
                    invariant
                        lo <= k <= hi <= n,
                        n == self@.len(),
                        n == self.atoms@.len(),
                        v@.map_values(|a: Atom| a@) == self@.subrange(lo as int, k as int),
                    decreases hi - k,
                {
                    let ghost vsnap = v@;
                    let at = self.atoms[k].clone();
                    v.push(at);
                    proof {
                        assert(v@ =~= vsnap.push(at));
                        assert(vsnap.map_values(|a: Atom| a@).len() == vsnap.len());
                        assert(vsnap.len() == k as int - lo as int);
                        assert forall|t: int| #![trigger v@[t]] 0 <= t < v@.len() implies v@.map_values(
                            |a: Atom| a@,
                        )[t] == self@.subrange(lo as int, k as int + 1)[t] by {
                            if t < k as int - lo as int {
                                assert(v@[t] == vsnap[t]);
                                assert(vsnap.map_values(|a: Atom| a@)[t] == vsnap[t]@);
                            } else {
                                assert(v@[t] == at);
                            }
                        }
                        assert(v@.map_values(|a: Atom| a@) =~= self@.subrange(
                            lo as int,
                            k as int + 1,
                        ));
                    }
                    k += 1;
                }
                Some(v)
            },
        }
    }

    /// The atom at column `col` of display row `row`, read off the flat
    /// sequence from the row's raw start: the low sentinel when the row is
    /// absent, the high sentinel when the index runs past the end.
    pub fn node(&self, row: usize, col: usize) -> (r: Atom)
        requires
            self.wf(),
        ensures
            spec_line_start(self.spec_content(), row as nat) is None ==> r@ == min_sentinel(
                self.site,
            ),
            spec_line_start(self.spec_content(), row as nat) matches Some(vs) ==> {
                let lo = if row == 0 {
                    0int
                } else {
                    vs + 1
                };
                if lo + col < self@.len() {
                    r@ == self@[lo + col as int]
                } else {
                    r@ == max_sentinel(self.site)
                }
            },
    {
        let n = self.atoms.len();
        match self.line_start(row) {
            None => self.virtual_min(),
            Some(vs) => {
                proof {
                    lemma_line_start_bounds(self.spec_content(), row as nat);
                }
                let lo: usize = if row == 0 {
                    0
                } else {
                    vs + 1
                };
                if col < n - lo {
                    self.atoms[lo + col].clone()
                } else {
                    self.virtual_max()
                }
            },
        }
    }

    /// A local coordinate change: the visible offset of the point is
    /// computed from its row and column and the character is inserted
    /// there, exactly as by `local_insert`; a point outside the rendered
    /// content is `OutOfRange`.
    pub fn point_insert(&mut self, c: char, point: Point) -> (r: Result<Atom, DocError>)
        requires
            old(self).wf(),
        ensures
            final(self).site == old(self).site,
            final(self).wf(),
            r matches Err(_) ==> final(self)@ == old(self)@,
            spec_point_offset(old(self).spec_content(), point) is None ==> r == Err::<
                Atom,
                DocError,
            >(DocError::OutOfRange),
            spec_point_offset(old(self).spec_content(), point) matches Some(o) ==> {
                &&& ((r matches Ok(_)) <==> (create_ok(
                    old(self).site,
                    old(self)@[o].position,
                    old(self)@[o + 1].position,
                ) && mint_well_formed(
                    old(self).site,
                    old(self)@[o].position,
                    old(self)@[o + 1].position,
                )))
                &&& (r matches Ok(a) ==> {
                    &&& a@.val == c
                    &&& pos_lt(old(self)@[o].position, a@.position)
                    &&& pos_lt(a@.position, old(self)@[o + 1].position)
                    &&& !malformed(a@)
                    &&& a@.position.last().site == old(self).site
                    &&& PAGE_MIN < a@.position.last().digit < PAGE_MAX
                    &&& final(self)@ == old(self)@.insert(o + 1, a@)
                    &&& final(self).spec_content() == old(self).spec_content().insert(o, c)
                })
            },
    {
        let n = self.atoms.len();
        match self.line_start(point.row) {
            None => Err(DocError::OutOfRange),
            Some(vs) => {
                proof {
                    lemma_line_start_bounds(self.spec_content(), point.row as nat);
                }
                if point.column > (n - 2) - vs {
                    Err(DocError::OutOfRange)
                } else {
                    self.local_insert(vs + point.column, c)
                }
            },
        }
    }

    /// A local coordinate deletion: the raw index `col` within the row —
    /// counted from the row's raw start, so that for the first row the
    /// column counts from the low sentinel — names the atom to remove.
    /// `None`, with no state change, when the index is absent or names a
    /// sentinel.
    pub fn point_delete(&mut self, row: usize, col: usize) -> (r: Option<Atom>)
        requires
            old(self).wf(),
        ensures
            final(self).site == old(self).site,
            final(self).wf(),
            r is None ==> final(self)@ == old(self)@,
            ({
                let c = old(self).spec_content();
                let ls = spec_line_start(c, row as nat);
                &&& (r is Some <==> (ls matches Some(vs) && {
                    let raw = (if row == 0 {
                        0int
                    } else {
                        vs + 1
                    }) + col;
                    1 <= raw < old(self)@.len() - 1
                }))
                &&& (r matches Some(a) ==> (ls matches Some(vs) && {
                    let raw = (if row == 0 {
                        0int
                    } else {
                        vs + 1
                    }) + col;
                    &&& a@ == old(self)@[raw]
                    &&& final(self)@ == old(self)@.remove(raw)
                    &&& final(self).spec_content() == old(self).spec_content().remove(raw - 1)
                }))
            }),
    {
        let n = self.atoms.len();
        match self.line_start(row) {
            None => None,
            Some(vs) => {
                proof {
                    lemma_line_start_bounds(self.spec_content(), row as nat);
                }
                let lo: usize = if row == 0 {
                    0
                } else {
                    vs + 1
                };
                if col >= n - 1 - lo || lo + col < 1 {
                    return None;
                }
                match self.local_delete(lo + col - 1) {
                    Ok(a) => Some(a),
                    Err(_) => None,
                }
            },
        }
    }
}

/// Relies on String::push: appends exactly the one given character.
#[verifier::external_body]
fn push_char(s: &mut String, c: char)
    ensures
        final(s)@ == old(s)@.push(c),
{
    s.push(c);
}

/// Inserting an element whose position lies strictly between its neighbours
/// keeps a sequence strictly sorted.
proof fn lemma_sorted_insert(s: Seq<AtomView>, i: int, m: AtomView)
    requires
        strictly_sorted(s),
        0 <= i <= s.len(),
        forall|k: int| 0 <= k < i ==> pos_lt(s[k].position, m.position),
        forall|k: int| i <= k < s.len() ==> pos_lt(m.position, s[k].position),
    ensures
        strictly_sorted(s.insert(i, m)),
{
    let t = s.insert(i, m);
    s.insert_ensures(i, m);
    assert forall|x: int, y: int| 0 <= x < y < t.len() implies pos_lt(
        t[x].position,
        t[y].position,
    ) by {
        if x < i {
            assert(t[x] == s[x]);
        } else if x == i {
            assert(t[x] == m);
        } else {
            assert(t[x] == s[x - 1]);
        }
        if y < i {
            assert(t[y] == s[y]);
        } else if y == i {
            assert(t[y] == m);
        } else {
            assert(t[y] == s[y - 1]);
        }
    }
}

/// Removing any element keeps a sequence strictly sorted.
proof fn lemma_sorted_remove(s: Seq<AtomView>, i: int)
    requires
        strictly_sorted(s),
        0 <= i < s.len(),
    ensures
        strictly_sorted(s.remove(i)),
{
    let t = s.remove(i);
    s.remove_ensures(i);
    assert forall|x: int, y: int| 0 <= x < y < t.len() implies pos_lt(
        t[x].position,
        t[y].position,
    ) by {
        if x < i {
            assert(t[x] == s[x]);
        } else {
            assert(t[x] == s[x + 1]);
        }
        if y < i {
            assert(t[y] == s[y]);
        } else {
            assert(t[y] == s[y + 1]);
        }
    }
}

} // verus!
