//! Dense, totally ordered position identifiers and their allocator.
//!
//! A position is a non-empty sequence of [`Id`]s, read as the digits of a
//! fractional number in a radix-`PAGE_MAX` system where every digit carries
//! the site that minted it. Positions are ordered element-wise; on equal
//! prefixes the shorter sequence is smaller. The allocator returns a fresh
//! position strictly between two given ones without any coordination.

use crate::id::{id_lt, Id, PAGE_MAX, PAGE_MIN};
use vstd::prelude::*;
use vstd::slice::{slice_index_get, slice_to_vec};

verus! {

/// Compares the suffixes of `a` and `b` that start at index `j`: true when
/// `a`'s suffix is strictly below `b`'s in the lexicographic order on
/// identifiers, a strict prefix being smaller than its extensions.
pub open spec fn pos_lt_from(a: Seq<Id>, b: Seq<Id>, j: int) -> bool
    decreases a.len() - j,
{
    if j >= a.len() {
        j < b.len()
    } else if j >= b.len() {
        false
    } else if id_lt(a[j], b[j]) {
        true
    } else if a[j] == b[j] {
        pos_lt_from(a, b, j + 1)
    } else {
        false
    }
}

/// Strict total order on whole positions: lexicographic on identifiers,
/// shorter prefixes first.
pub open spec fn pos_lt(a: Seq<Id>, b: Seq<Id>) -> bool {
    pos_lt_from(a, b, 0)
}

pub(crate) proof fn lemma_pos_lt_from_trans(a: Seq<Id>, b: Seq<Id>, c: Seq<Id>, j: int)
    requires
        0 <= j,
        pos_lt_from(a, b, j),
        pos_lt_from(b, c, j),
    ensures
        pos_lt_from(a, c, j),
    decreases a.len() - j,
{
    if j < a.len() && j < b.len() && j < c.len() && a[j] == b[j] && b[j] == c[j] {
        lemma_pos_lt_from_trans(a, b, c, j + 1);
    }
}

pub(crate) proof fn lemma_pos_lt_from_asym(a: Seq<Id>, b: Seq<Id>, j: int)
    requires
        0 <= j,
        pos_lt_from(a, b, j),
    ensures
        !pos_lt_from(b, a, j),
    decreases a.len() - j,
{
    if j < a.len() && j < b.len() && a[j] == b[j] {
        lemma_pos_lt_from_asym(a, b, j + 1);
    }
}

pub(crate) proof fn lemma_pos_lt_from_connected(a: Seq<Id>, b: Seq<Id>, j: int)
    requires
        0 <= j <= a.len(),
        j <= b.len(),
        !pos_lt_from(a, b, j),
        !pos_lt_from(b, a, j),
    ensures
        a.len() == b.len(),
        forall|k: int| #![trigger a[k]] j <= k < a.len() ==> a[k] == b[k],
    decreases a.len() - j,
{
    if j < a.len() {
        lemma_pos_lt_from_connected(a, b, j + 1);
    }
}

/// Once two positions agree on the identifiers at indices `i..j`, their
/// comparison from `i` reduces to the comparison from `j`.
pub(crate) proof fn lemma_pos_lt_from_advance(a: Seq<Id>, b: Seq<Id>, i: int, j: int)
    requires
        0 <= i <= j,
        j <= a.len(),
        j <= b.len(),
        pos_lt_from(a, b, i),
        forall|k: int| #![trigger a[k]] i <= k < j ==> a[k] == b[k],
    ensures
        pos_lt_from(a, b, j),
    decreases j - i,
{
    if i < j {
        assert(a[i] == b[i]);
        lemma_pos_lt_from_advance(a, b, i + 1, j);
    }
}

/// A position that extends another, matching it on `j..a.len()`, is above it.
pub(crate) proof fn lemma_pos_lt_from_prefix(a: Seq<Id>, b: Seq<Id>, j: int)
    requires
        0 <= j <= a.len(),
        a.len() < b.len(),
        forall|k: int| #![trigger a[k]] j <= k < a.len() ==> a[k] == b[k],
    ensures
        pos_lt_from(a, b, j),
    decreases a.len() - j,
{
    if j < a.len() {
        lemma_pos_lt_from_prefix(a, b, j + 1);
    }
}

/// Two positions that agree on `j..d` and diverge downward at `d` compare
/// strictly from `j`, whatever follows `d` on either side.
pub(crate) proof fn lemma_pos_lt_from_diverge(a: Seq<Id>, b: Seq<Id>, j: int, d: int)
    requires
        0 <= j <= d,
        d < a.len(),
        d < b.len(),
        forall|k: int| #![trigger a[k]] j <= k < d ==> a[k] == b[k],
        id_lt(a[d], b[d]),
    ensures
        pos_lt_from(a, b, j),
    decreases d - j,
{
    if j < d {
        lemma_pos_lt_from_diverge(a, b, j + 1, d);
    }
}

/// The order on positions is transitive.
pub proof fn lemma_pos_order_trans(a: Seq<Id>, b: Seq<Id>, c: Seq<Id>)
    requires
        pos_lt(a, b),
        pos_lt(b, c),
    ensures
        pos_lt(a, c),
{
    lemma_pos_lt_from_trans(a, b, c, 0);
}

/// The order on positions is asymmetric: no two positions are each below
/// the other.
pub proof fn lemma_pos_order_asym(a: Seq<Id>, b: Seq<Id>)
    requires
        pos_lt(a, b),
    ensures
        !pos_lt(b, a),
{
    lemma_pos_lt_from_asym(a, b, 0);
}

/// The order on positions is connected: incomparable positions are equal, so
/// the order is total and depends only on the identifier content.
pub proof fn lemma_pos_order_connected(a: Seq<Id>, b: Seq<Id>)
    requires
        !pos_lt(a, b),
        !pos_lt(b, a),
    ensures
        a =~= b,
{
    lemma_pos_lt_from_connected(a, b, 0);
}

/// An ordered sequence of identifiers forming a dense key into the document.
#[derive(Debug)]
pub struct Position(pub Vec<Id>);

impl View for Position {
    type V = Seq<Id>;

    open spec fn view(&self) -> Seq<Id> {
        self.0@
    }
}

impl Clone for Position {
    fn clone(&self) -> (r: Self)
        ensures
            r@ == self@,
    {
        Position(slice_to_vec(self.0.as_slice()))
    }
}

impl PartialEq for Position {
    fn eq(&self, other: &Position) -> (r: bool) {
        let n = self.0.len();
        if n != other.0.len() {
            return false;
        }
        let mut i: usize = 0;
        while i < n
            invariant
                i <= n,
                n == self.0@.len(),
                n == other.0@.len(),
                forall|k: int| 0 <= k < i ==> self.0@[k] == other.0@[k],
            decreases n - i,
        {
            if self.0[i] != other.0[i] {
                return false;
            }
            i += 1;
        }
        proof {
            assert(self.0@ =~= other.0@);
        }
        true
    }
}

impl Eq for Position {

}

impl vstd::std_specs::cmp::PartialEqSpecImpl for Position {
    open spec fn obeys_eq_spec() -> bool {
        true
    }

    open spec fn eq_spec(&self, other: &Position) -> bool {
        self.0@ == other.0@
    }
}

impl Position {
    pub fn new(ids: &[Id]) -> (r: Self)
        ensures
            r@ == ids@,
    {
        Position(slice_to_vec(ids))
    }

    /// The number of identifiers in the position.
    pub fn len(&self) -> (r: usize)
        ensures
            r == self@.len(),
    {
        self.0.len()
    }

    /// Executable strict comparison, matching the `pos_lt` order.
    pub fn lt(&self, other: &Position) -> (r: bool)
        ensures
            r == pos_lt(self@, other@),
    {
        let alen = self.0.len();
        let blen = other.0.len();
        let mut i: usize = 0;
        while i < alen && i < blen
            invariant
                i <= alen,
                i <= blen,
                alen == self.0@.len(),
                blen == other.0@.len(),
                forall|k: int| 0 <= k < i ==> self.0@[k] == other.0@[k],
            decreases alen - i,
        {
            let x = self.0[i];
            let y = other.0[i];
            if x.lt(&y) {
                proof {
                    lemma_pos_lt_from_diverge(self@, other@, 0, i as int);
                }
                return true;
            }
            if y.lt(&x) {
                proof {
                    lemma_pos_lt_from_diverge(other@, self@, 0, i as int);
                    lemma_pos_lt_from_asym(other@, self@, 0);
                }
                return false;
            }
            i += 1;
        }
        if alen < blen {
            proof {
                lemma_pos_lt_from_prefix(self@, other@, 0);
            }
            true
        } else {
            proof {
                if alen == blen {
                    if pos_lt_from(self@, other@, 0) {
                        lemma_pos_lt_from_advance(self@, other@, 0, i as int);
                    }
                } else {
                    lemma_pos_lt_from_prefix(other@, self@, 0);
                    lemma_pos_lt_from_asym(other@, self@, 0);
                }
            }
            false
        }
    }
}

/// The identifier the allocator reads from `before` at step `j`: the real
/// entry while one exists, then the virtual floor tagged with the caller's
/// site.
pub open spec fn floor_at(b: Seq<Id>, site: i64, j: int) -> Id {
    if 0 <= j < b.len() {
        b[j]
    } else {
        Id { digit: PAGE_MIN, site }
    }
}

/// Allocation-safety of a flanking pair for a given site.
///
/// When `before` is a proper prefix of `after`, the allocator substitutes the
/// virtual floor `(PAGE_MIN, site)` for the exhausted side and compares it
/// with the next identifier of `after`. If that identifier has digit
/// `PAGE_MIN` and a site below the caller's, or `after` consists of such
/// floor identifiers up to its end, no digit strictly between the two sides
/// exists at any depth and allocation cannot succeed. This predicate rules
/// exactly those pairs out; on every other pair with `before < after` the
/// allocator is proved to return a strictly intermediate position.
pub open spec fn create_ok(site: i64, b: Seq<Id>, a: Seq<Id>) -> bool
    decreases a.len() - b.len(),
{
    if !(b.len() < a.len() && b =~= a.subrange(0, b.len() as int)) {
        true
    } else {
        let nxt = a[b.len() as int];
        if nxt.digit >= 1 {
            true
        } else if nxt.site > site {
            true
        } else if nxt.site < site {
            false
        } else {
            b.len() + 1 < a.len() && create_ok(site, a.subrange(0, b.len() as int + 1), a)
        }
    }
}

/// Freshly allocated positions of different sites never collide: each
/// carries its minting site in its final identifier, so concurrent
/// allocations into the same flanking pair stay distinct and totally
/// ordered without coordination.
pub proof fn lemma_cross_site_distinct(r1: Seq<Id>, r2: Seq<Id>, s1: i64, s2: i64)
    requires
        s1 != s2,
        r1.len() >= 1,
        r2.len() >= 1,
        r1.last().site == s1,
        r2.last().site == s2,
    ensures
        r1 != r2,
{
    if r1 == r2 {
        assert(r1.last() == r2.last());
    }
}

/// One more than the longer flank: the allocator walks the two sides in
/// parallel and appends at most one fresh level, so no result is longer.
pub open spec fn grown_len(b: Seq<Id>, a: Seq<Id>) -> int {
    1 + if b.len() >= a.len() {
        b.len() as int
    } else {
        a.len() as int
    }
}

/// Whether the position minted between these flanks is well-formed, that is,
/// its first digit stays strictly inside `(PAGE_MIN, PAGE_MAX)`.
///
/// The mint's first identifier is either a fresh digit drawn strictly inside
/// the gap at the top level — well-formed whenever that gap is wider than
/// one — or a copy of what the allocator reads from `before` at the top
/// level, well-formed exactly when that identifier's digit is no sentinel
/// digit. On the rare pairs where neither holds (a floor or ceiling digit on
/// the left flank and no top-level gap), every position this site could mint
/// would collide with the sentinel digit space and be refused by peers, so
/// the document declines to allocate there at all.
pub open spec fn mint_well_formed(site: i64, b: Seq<Id>, a: Seq<Id>) -> bool {
    a.len() > 0 && {
        let first = floor_at(b, site, 0);
        a[0].digit > first.digit + 1 || (PAGE_MIN < first.digit && first.digit < PAGE_MAX)
    }
}

proof fn lemma_remint_scan(site: i64, b: Seq<Id>, x: Seq<Id>, j: int)
    requires
        b.len() <= j < x.len(),
        x.last().site == site,
        PAGE_MIN < x.last().digit,
        forall|k: int| #![trigger x[k]] 0 <= k < x.len() - 1 ==> x[k] == floor_at(b, site, k),
    ensures
        create_ok(site, x.subrange(0, j), x),
    decreases x.len() - j,
{
    assert(x.subrange(0, j) =~= x.subrange(0, x.subrange(0, j).len() as int));
    if j < x.len() - 1 {
        assert(x[j] == floor_at(b, site, j));
        lemma_remint_scan(site, b, x, j + 1);
        assert(x.subrange(0, j + 1) =~= x.subrange(0, x.subrange(0, j).len() as int + 1));
    } else {
        assert(x[j] == x.last());
    }
}

/// Repeated allocation against a fixed, well-formed left flank never runs
/// out: a position minted between `b` and anything — so shaped as a prefix
/// of floor reads from `b` plus one final own-site identifier with a
/// nonzero digit — is itself a safe, well-formed-mint right flank for the
/// next allocation of the same site against `b`. With `local_insert`'s
/// contract this lets inserts repeat between two fixed neighbours without
/// ever being refused, however long the positions grow.
pub proof fn lemma_remint_safe(site: i64, b: Seq<Id>, x: Seq<Id>)
    requires
        b.len() >= 1,
        PAGE_MIN < b[0].digit < PAGE_MAX,
        x.len() >= 1,
        x.last().site == site,
        PAGE_MIN < x.last().digit,
        forall|k: int| #![trigger x[k]] 0 <= k < x.len() - 1 ==> x[k] == floor_at(b, site, k),
    ensures
        create_ok(site, b, x),
        mint_well_formed(site, b, x),
{
    if b.len() < x.len() && b =~= x.subrange(0, b.len() as int) {
        lemma_remint_scan(site, b, x, b.len() as int);
        assert(b == x.subrange(0, b.len() as int));
    }
}

/// Relies on rand::random_range: a uniform draw from the half-open interval
/// `[lo, hi)`; it panics only on an empty range, which the precondition
/// rules out.
#[verifier::external_body]
fn random_in(lo: u64, hi: u64) -> (r: u64)
    requires
        lo < hi,
    ensures
        lo <= r < hi,
{
    rand::random_range(lo..hi)
}

/// Some prefix of `np` sits strictly below `a` at a divergence point, so any
/// extension of `np` stays below `a`.
pub(crate) open spec fn locked_below(np: Seq<Id>, a: Seq<Id>) -> bool {
    exists|d: int|
        0 <= d < np.len() && d < a.len() && (forall|k: int| #![trigger a[k]] 0 <= k < d ==> np[k]
            == a[k]) && id_lt(np[d], a[d])
}

pub(crate) proof fn lemma_locked_below_lt(np: Seq<Id>, a: Seq<Id>)
    requires
        locked_below(np, a),
    ensures
        pos_lt(np, a),
{
    let d = choose|d: int|
        0 <= d < np.len() && d < a.len() && (forall|k: int| #![trigger a[k]] 0 <= k < d ==> np[k]
            == a[k]) && id_lt(np[d], a[d]);
    lemma_pos_lt_from_diverge(np, a, 0, d);
}

pub(crate) proof fn lemma_locked_below_push(np: Seq<Id>, a: Seq<Id>, x: Id)
    requires
        locked_below(np, a),
    ensures
        locked_below(np.push(x), a),
{
    let d = choose|d: int|
        0 <= d < np.len() && d < a.len() && (forall|k: int| #![trigger a[k]] 0 <= k < d ==> np[k]
            == a[k]) && id_lt(np[d], a[d]);
    assert(0 <= d < np.push(x).len() && d < a.len() && (forall|k: int| #![trigger a[k]]
        0 <= k < d ==> np.push(x)[k] == a[k]) && id_lt(np.push(x)[d], a[d]));
}

impl Position {
    /// Executable check of `create_ok` for a flanking pair.
    ///
    /// A caller that holds two positions in order can test them here before
    /// asking `create` for a position between them.
    pub fn can_create(site: i64, before: &[Id], after: &[Id]) -> (r: bool)
        ensures
            r == create_ok(site, before@, after@),
    {
        let blen = before.len();
        let alen = after.len();
        if blen >= alen {
            return true;
        }
        let mut j: usize = 0;
        while j < blen
            invariant
                j <= blen,
                blen == before@.len(),
                alen == after@.len(),
                blen < alen,
                forall|k: int| #![trigger before@[k]] 0 <= k < j ==> before@[k] == after@[k],
            decreases blen - j,
        {
            let x = *slice_index_get(before, j);
            let y = *slice_index_get(after, j);
            if x != y {
                proof {
                    assert(before@[j as int] != after@.subrange(0, blen as int)[j as int]);
                }
                return true;
            }
            j += 1;
        }
        proof {
            assert(before@ =~= after@.subrange(0, blen as int));
        }
        let mut k: usize = blen;
        loop
            invariant
                blen <= k < alen,
                blen == before@.len(),
                alen == after@.len(),
                create_ok(site, before@, after@) == create_ok(
                    site,
                    after@.subrange(0, k as int),
                    after@,
                ),
            decreases alen - k,
        {
            let nxt = *slice_index_get(after, k);
            if nxt.digit >= 1 {
                return true;
            }
            if nxt.site > site {
                return true;
            }
            if nxt.site < site {
                return false;
            }
            if k + 1 >= alen {
                return false;
            }
            proof {
                assert(after@.subrange(0, (k + 1) as int) =~= after@.subrange(
                    0,
                    k as int + 1,
                ));
            }
            k += 1;
        }
    }

    /// Executable check of `mint_well_formed` for a flanking pair.
    pub fn can_mint(site: i64, before: &[Id], after: &[Id]) -> (r: bool)
        ensures
            r == mint_well_formed(site, before@, after@),
    {
        if after.len() == 0 {
            return false;
        }
        let first: Id = if before.len() > 0 {
            *slice_index_get(before, 0)
        } else {
            Id { digit: PAGE_MIN, site }
        };
        let a0 = *slice_index_get(after, 0);
        (first.digit < a0.digit && a0.digit - first.digit > 1) || (PAGE_MIN < first.digit
            && first.digit < PAGE_MAX)
    }

    /// Allocates a fresh position strictly between `before` and `after` for
    /// `site`, walking the two sides in parallel: where the digits leave a
    /// gap it draws a random digit inside it; where they differ by at most
    /// one it copies the lower side and descends one level; if no gap was
    /// ever found it appends one final random digit on a fresh level.
    ///
    /// The result is strictly between the two inputs for every draw of
    /// randomness. Its shape is fixed: a prefix of identifiers read from
    /// `before` (the virtual floor past its end) followed by exactly one
    /// freshly drawn identifier tagged with the calling site — the basis of
    /// uniqueness under concurrent allocation, since two sites minting into
    /// the same pair differ at least in that final site tag. The final digit
    /// is never `PAGE_MIN` or `PAGE_MAX`, the result is at most one level
    /// longer than the longer flank, and on a well-formed-mint pair the
    /// first digit also stays inside the open interval.
    pub fn create(site: i64, before: &[Id], after: &[Id]) -> (r: Position)
        requires
            pos_lt(before@, after@),
            create_ok(site, before@, after@),
        ensures
            pos_lt(before@, r@),
            pos_lt(r@, after@),
            r@.len() >= 1,
            PAGE_MIN < r@.last().digit < PAGE_MAX,
            r@.last().site == site,
            r@.len() <= grown_len(before@, after@),
            forall|k: int| #![trigger r@[k]]
                0 <= k < r@.len() - 1 ==> r@[k] == floor_at(before@, site, k),
            mint_well_formed(site, before@, after@) ==> PAGE_MIN < r@[0].digit < PAGE_MAX,
    {
        let blen = before.len();
        let alen = after.len();
        let max_len = if blen >= alen {
            blen
        } else {
            alen
        };
        let mut new_pos: Vec<Id> = Vec::new();
        let mut same = true;
        let mut done = false;
        let mut i: usize = 0;
        proof {
            if blen == 0 {
                assert(before@ =~= after@.subrange(0, 0));
            }
            if alen == 0 {
                assert(!pos_lt_from(before@, after@, 0));
            }
        }
        while i < max_len && !done
            invariant
                blen == before@.len(),
                alen == after@.len(),
                max_len == if blen >= alen { blen } else { alen },
                i <= max_len,
                pos_lt(before@, after@),
                create_ok(site, before@, after@),
                !done ==> new_pos@.len() == i,
                !done ==> forall|k: int| #![trigger new_pos@[k]]
                    0 <= k < i ==> new_pos@[k] == floor_at(before@, site, k),
                !done && same ==> i <= alen && forall|k: int| #![trigger after@[k]]
                    0 <= k < i ==> new_pos@[k] == after@[k],
                !done && same && i >= blen ==> i < alen && create_ok(
                    site,
                    after@.subrange(0, i as int),
                    after@,
                ),
                !done && !same ==> locked_below(new_pos@, after@),
                done ==> new_pos@.len() >= 1 && pos_lt(before@, new_pos@) && pos_lt(
                    new_pos@,
                    after@,
                ) && PAGE_MIN < new_pos@.last().digit < PAGE_MAX && new_pos@.last().site == site
                    && new_pos@.len() <= max_len && (forall|k: int| #![trigger new_pos@[k]]
                    0 <= k < new_pos@.len() - 1 ==> new_pos@[k] == floor_at(before@, site, k)),
                alen >= 1,
                (i > 0 || done) ==> new_pos@.len() >= 1 && (if after@[0].digit > floor_at(
                    before@,
                    site,
                    0,
                ).digit + 1 {
                    PAGE_MIN < new_pos@[0].digit < PAGE_MAX
                } else {
                    new_pos@[0] == floor_at(before@, site, 0)
                }),
            decreases max_len - i + (if done { 0int } else { 1int }),
        {
            proof {
                if same && i == alen {
                    if i < blen {
                        lemma_pos_lt_from_prefix(after@, before@, 0);
                        lemma_pos_lt_from_asym(after@, before@, 0);
                    }
                    assert(false);
                }
            }
            let id1: Id = if i < blen {
                *slice_index_get(before, i)
            } else {
                Id { digit: PAGE_MIN, site }
            };
            let id2: Id = if same {
                *slice_index_get(after, i)
            } else {
                Id { digit: PAGE_MAX, site }
            };
            proof {
                if same && i < blen {
                    lemma_pos_lt_from_advance(before@, after@, 0, i as int);
                }
                assert(id1.digit <= id2.digit);
            }
            if id2.digit - id1.digit > 1 {
                let digit = random_in(id1.digit + 1, id2.digit);
                let ghost np_snap = new_pos@;
                new_pos.push(Id { digit, site });
                proof {
                    if i < blen {
                        lemma_pos_lt_from_diverge(before@, new_pos@, 0, i as int);
                    } else {
                        lemma_pos_lt_from_prefix(before@, new_pos@, 0);
                    }
                    if same {
                        lemma_pos_lt_from_diverge(new_pos@, after@, 0, i as int);
                    } else {
                        lemma_locked_below_push(np_snap, after@, Id { digit, site });
                        lemma_locked_below_lt(new_pos@, after@);
                    }
                }
                done = true;
            } else {
                let eq12 = id1 == id2;
                let ghost np_snap = new_pos@;
                new_pos.push(id1);
                proof {
                    if same {
                        if eq12 {
                            if i >= blen {
                                assert(i + 1 < alen && create_ok(
                                    site,
                                    after@.subrange(0, i as int + 1),
                                    after@,
                                ));
                                assert(after@.subrange(0, (i + 1) as int) =~= after@.subrange(
                                    0,
                                    i as int + 1,
                                ));
                            } else if i + 1 == blen {
                                assert(before@ =~= after@.subrange(0, blen as int));
                                if blen == alen {
                                    assert(before@ =~= after@);
                                    lemma_pos_lt_from_asym(before@, after@, 0);
                                    assert(false);
                                }
                            }
                        } else {
                            if i < blen {
                                lemma_pos_lt_from_advance(before@, after@, 0, i as int);
                                assert(id_lt(id1, id2));
                            } else {
                                assert(id_lt(id1, id2));
                            }
                            let di = i as int;
                            assert(locked_below(new_pos@, after@)) by {
                                assert(0 <= di < new_pos@.len() && di < after@.len() && (forall|
                                    k: int,
                                |
                                    #![trigger after@[k]]
                                    0 <= k < di ==> new_pos@[k] == after@[k]) && id_lt(
                                    new_pos@[di],
                                    after@[di],
                                ));
                            }
                        }
                    } else {
                        lemma_locked_below_push(np_snap, after@, id1);
                    }
                }
                same = same && eq12;
                i += 1;
            }
        }
        if !done {
            proof {
                if same {
                    assert(false);
                }
                lemma_locked_below_lt(new_pos@, after@);
            }
            let digit = random_in(PAGE_MIN + 1, PAGE_MAX);
            let ghost np_snap = new_pos@;
            new_pos.push(Id { digit, site });
            proof {
                lemma_locked_below_push(np_snap, after@, Id { digit, site });
                lemma_locked_below_lt(new_pos@, after@);
                lemma_pos_lt_from_prefix(before@, new_pos@, 0);
            }
        }
        Position(new_pos)
    }
}

} // verus!
