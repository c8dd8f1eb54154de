//! The laws of the replicated document, proved once and for all.
//!
//! The heart of strong eventual consistency: a well-formed document is a
//! function of the multiset of atoms it holds, never of the order in which
//! local and remote operations delivered them. Together with the operation
//! contracts in [`crate::document`] — which say exactly how each operation
//! changes the interior multiset — these lemmas give convergence for every
//! interleaving of deliveries.

use crate::atom::AtomView;
use crate::document::{contains_pos, strictly_sorted, Document};
use crate::position::{lemma_pos_order_asym, pos_lt};
use vstd::multiset::Multiset;
use vstd::prelude::*;

verus! {

broadcast use vstd::seq_lib::group_to_multiset_ensures, vstd::multiset::group_multiset_axioms;

/// The interior of a document view: its atoms without the two sentinels.
pub open spec fn interior(s: Seq<AtomView>) -> Seq<AtomView> {
    s.subrange(1, s.len() - 1)
}

/// Two strictly sorted sequences holding the same atoms are equal: sorted
/// insertion is deterministic, so the atom multiset fixes the whole
/// sequence.
pub proof fn lemma_sorted_multiset_unique(x: Seq<AtomView>, y: Seq<AtomView>)
    requires
        strictly_sorted(x),
        strictly_sorted(y),
        x.to_multiset() == y.to_multiset(),
    ensures
        x =~= y,
    decreases x.len(),
{
    if x.len() == 0 {
        assert(x.len() == x.to_multiset().len());
        assert(y.len() == y.to_multiset().len());
    } else {
        assert(x.contains(x[0]));
        assert(x.to_multiset().count(x[0]) > 0);
        assert(y.to_multiset().count(x[0]) > 0);
        assert(y.contains(x[0]));
        assert(y.contains(y[0]));
        assert(y.to_multiset().count(y[0]) > 0);
        assert(x.to_multiset().count(y[0]) > 0);
        assert(x.contains(y[0]));
        let j = choose|j: int| 0 <= j < y.len() && y[j] == x[0];
        let i = choose|i: int| 0 <= i < x.len() && x[i] == y[0];
        if i > 0 && j > 0 {
            assert(pos_lt(x[0].position, x[i].position));
            assert(pos_lt(y[0].position, y[j].position));
            lemma_pos_order_asym(x[0].position, y[0].position);
            assert(false);
        }
        assert(x[0] == y[0]);
        assert(x.remove(0).to_multiset() =~= x.to_multiset().remove(x[0]));
        assert(y.remove(0).to_multiset() =~= y.to_multiset().remove(y[0]));
        assert(x.remove(0) =~= x.drop_first());
        assert(y.remove(0) =~= y.drop_first());
        assert(strictly_sorted(x.drop_first())) by {
            assert forall|p: int, q: int| 0 <= p < q < x.drop_first().len() implies pos_lt(
                x.drop_first()[p].position,
                x.drop_first()[q].position,
            ) by {
                assert(pos_lt(x[p + 1].position, x[q + 1].position));
            }
        }
        assert(strictly_sorted(y.drop_first())) by {
            assert forall|p: int, q: int| 0 <= p < q < y.drop_first().len() implies pos_lt(
                y.drop_first()[p].position,
                y.drop_first()[q].position,
            ) by {
                assert(pos_lt(y[p + 1].position, y[q + 1].position));
            }
        }
        lemma_sorted_multiset_unique(x.drop_first(), y.drop_first());
        assert(x.len() == x.to_multiset().len());
        assert(y.len() == y.to_multiset().len());
        assert forall|k: int| 0 <= k < x.len() implies x[k] == y[k] by {
            if k > 0 {
                assert(x[k] == x.drop_first()[k - 1]);
                assert(y[k] == y.drop_first()[k - 1]);
            }
        }
        assert(x =~= y);
    }
}

/// Strong eventual consistency, the state half: two well-formed replicas
/// holding the same atoms — however the operations that produced them were
/// interleaved — hold the same interior sequence and render the same
/// content.
pub proof fn lemma_replicas_converge(d1: Document, d2: Document)
    requires
        d1.wf(),
        d2.wf(),
        interior(d1@).to_multiset() == interior(d2@).to_multiset(),
    ensures
        interior(d1@) =~= interior(d2@),
        d1.spec_content() == d2.spec_content(),
{
    assert(strictly_sorted(interior(d1@))) by {
        assert forall|p: int, q: int| 0 <= p < q < interior(d1@).len() implies pos_lt(
            interior(d1@)[p].position,
            interior(d1@)[q].position,
        ) by {
            assert(pos_lt(d1@[p + 1].position, d1@[q + 1].position));
        }
    }
    assert(strictly_sorted(interior(d2@))) by {
        assert forall|p: int, q: int| 0 <= p < q < interior(d2@).len() implies pos_lt(
            interior(d2@)[p].position,
            interior(d2@)[q].position,
        ) by {
            assert(pos_lt(d2@[p + 1].position, d2@[q + 1].position));
        }
    }
    lemma_sorted_multiset_unique(interior(d1@), interior(d2@));
    assert(d1.spec_content() =~= d2.spec_content());
}

/// Delivery order is irrelevant: two well-formed replicas whose interiors
/// grew from one base by the same two atoms, each replica in its own order,
/// hold the same document and render the same content.
pub proof fn lemma_remote_inserts_commute(
    d1: Document,
    d2: Document,
    base: Multiset<AtomView>,
    a: AtomView,
    b: AtomView,
)
    requires
        d1.wf(),
        d2.wf(),
        interior(d1@).to_multiset() == base.insert(a).insert(b),
        interior(d2@).to_multiset() == base.insert(b).insert(a),
    ensures
        interior(d1@) =~= interior(d2@),
        d1.spec_content() == d2.spec_content(),
{
    assert(base.insert(a).insert(b) =~= base.insert(b).insert(a));
    lemma_replicas_converge(d1, d2);
}

/// Splicing an element into a sequence adds exactly it to the multiset.
pub proof fn lemma_seq_insert_to_multiset<T>(s: Seq<T>, i: int, x: T)
    requires
        0 <= i <= s.len(),
    ensures
        s.insert(i, x).to_multiset() == s.to_multiset().insert(x),
{
    vstd::seq_lib::lemma_multiset_commutative(s.subrange(0, i).push(x), s.subrange(i, s.len() as int));
    vstd::seq_lib::lemma_multiset_commutative(s.subrange(0, i), s.subrange(i, s.len() as int));
    assert(s.subrange(0, i) + s.subrange(i, s.len() as int) =~= s);
    assert(s.subrange(0, i).push(x).to_multiset() =~= s.subrange(0, i).to_multiset().insert(x));
    assert(s.subrange(0, i).to_multiset().insert(x).add(s.subrange(i, s.len() as int).to_multiset())
        =~= s.subrange(0, i).to_multiset().add(s.subrange(i, s.len() as int).to_multiset()).insert(
        x,
    ));
}

/// How a successful insert changes the interior: the new interior is the old
/// one with the atom spliced in at the visible offset, and as a multiset the
/// operation adds exactly that atom. This is the frame through which any
/// interleaving of inserts reduces to a multiset union, making their
/// delivery order irrelevant.
pub proof fn lemma_insert_interior(pre: Seq<AtomView>, v: int, m: AtomView)
    requires
        pre.len() >= 2,
        0 <= v <= pre.len() - 2,
    ensures
        interior(pre.insert(v + 1, m)) =~= interior(pre).insert(v, m),
        interior(pre.insert(v + 1, m)).to_multiset() == interior(pre).to_multiset().insert(m),
{
    pre.insert_ensures(v + 1, m);
    interior(pre).insert_ensures(v, m);
    assert(interior(pre.insert(v + 1, m)) =~= interior(pre).insert(v, m));
    lemma_seq_insert_to_multiset(interior(pre), v, m);
}

/// How a successful delete changes the interior: the atom at the visible
/// offset leaves the sequence, and as a multiset the operation removes
/// exactly that atom.
pub proof fn lemma_remove_interior(pre: Seq<AtomView>, v: int)
    requires
        pre.len() >= 2,
        0 <= v < pre.len() - 2,
    ensures
        interior(pre.remove(v + 1)) =~= interior(pre).remove(v),
        interior(pre.remove(v + 1)).to_multiset() == interior(pre).to_multiset().remove(
            interior(pre)[v],
        ),
{
    pre.remove_ensures(v + 1);
    interior(pre).remove_ensures(v);
    assert(interior(pre.remove(v + 1)) =~= interior(pre).remove(v));
    assert(interior(pre).remove(v).to_multiset() =~= interior(pre).to_multiset().remove(
        interior(pre)[v],
    ));
}

/// Idempotence of remote insertion: a successful application leaves the
/// atom's position present, so by `remote_insert`'s contract a second
/// delivery of the same atom reports `Duplicate` and changes nothing —
/// applying an atom twice is observationally the same as applying it once.
pub proof fn lemma_remote_insert_idempotent(pre: Seq<AtomView>, v: int, m: AtomView)
    requires
        0 <= v + 1 <= pre.len(),
    ensures
        contains_pos(pre.insert(v + 1, m), m.position),
{
    pre.insert_ensures(v + 1, m);
    assert(pre.insert(v + 1, m)[v + 1] == m);
}

/// Inserting at an offset and then deleting at that same offset restores
/// the sequence exactly: with `local_insert` and `local_delete`'s contracts
/// this gives back both the original content and the original atoms, the
/// design being tombstone-free.
pub proof fn lemma_insert_delete_roundtrip<T>(s: Seq<T>, k: int, x: T)
    requires
        0 <= k <= s.len(),
    ensures
        s.insert(k, x).remove(k) =~= s,
{
    s.insert_ensures(k, x);
    s.insert(k, x).remove_ensures(k);
}

/// Inserting at offset zero places the element before all existing content.
pub proof fn lemma_insert_front<T>(s: Seq<T>, x: T)
    ensures
        s.insert(0, x) =~= seq![x] + s,
{
    s.insert_ensures(0, x);
}

/// Inserting at the length appends the element after all existing content.
pub proof fn lemma_insert_back<T>(s: Seq<T>, x: T)
    ensures
        s.insert(s.len() as int, x) =~= s + seq![x],
{
    s.insert_ensures(s.len() as int, x);
}

} // verus!
