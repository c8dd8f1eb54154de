//! The node's decision core.
//!
//! The surrounding runtime owns the sockets, queues and the scheduler; every
//! decision it takes is made here: one event goes in, the document is
//! updated, and the event to broadcast to peers — carrying the atoms that
//! were minted or removed — comes out. Remote events are absorbed into the
//! document and produce nothing to broadcast.

use crate::atom::Atom;
use crate::id::{PAGE_MAX, PAGE_MIN};
use crate::document::{contains_pos, malformed, spec_point_offset, strictly_sorted, Document};
use crate::laws::lemma_remote_insert_idempotent;
use crate::position::{lemma_pos_order_asym, pos_lt};
use crate::range::Range;
use vstd::prelude::*;

verus! {

/// An event a node receives or emits: a replicated operation exchanged with
/// peers, or a local edit from the editor frontend.
#[allow(inconsistent_fields)]
pub enum Event {
    RemoteInsert { id: i64, lines: Vec<Atom> },
    RemoteDelete { id: i64, lines: Vec<Atom> },
    Insert { lines: Vec<char>, range: Range },
    Delete { range: Range },
}

/// The visible span a `Delete` event names: the offsets of its two points,
/// when both lie inside the content in order.
pub open spec fn spec_span(c: Seq<char>, rg: Range) -> Option<(int, int)> {
    match (spec_point_offset(c, rg.start), spec_point_offset(c, rg.end)) {
        (Some(a), Some(b)) => if a <= b {
            Some((a, b))
        } else {
            None
        },
        _ => None,
    }
}

/// A present position stays present when another atom is spliced in.
proof fn lemma_contains_pos_insert(s: Seq<crate::atom::AtomView>, i: int, m: crate::atom::AtomView, p: Seq<crate::id::Id>)
    requires
        0 <= i <= s.len(),
        contains_pos(s, p),
    ensures
        contains_pos(s.insert(i, m), p),
{
    let w = choose|w: int| 0 <= w < s.len() && s[w].position == p;
    s.insert_ensures(i, m);
    if w < i {
        assert(s.insert(i, m)[w] == s[w]);
    } else {
        assert(s.insert(i, m)[w + 1] == s[w]);
    }
}

/// An absent position stays absent when an atom is removed.
proof fn lemma_not_contains_pos_remove(s: Seq<crate::atom::AtomView>, i: int, p: Seq<crate::id::Id>)
    requires
        0 <= i < s.len(),
        !contains_pos(s, p),
    ensures
        !contains_pos(s.remove(i), p),
{
    s.remove_ensures(i);
    if contains_pos(s.remove(i), p) {
        let w = choose|w: int| 0 <= w < s.remove(i).len() && s.remove(i)[w].position == p;
        if w < i {
            assert(s[w].position == p);
        } else {
            assert(s[w + 1].position == p);
        }
    }
}

/// In a strictly sorted sequence a position occurs at most once, so removing
/// its atom leaves the position absent.
proof fn lemma_remove_only_occurrence(s: Seq<crate::atom::AtomView>, i: int)
    requires
        strictly_sorted(s),
        0 <= i < s.len(),
    ensures
        !contains_pos(s.remove(i), s[i].position),
{
    s.remove_ensures(i);
    if contains_pos(s.remove(i), s[i].position) {
        let w = choose|w: int|
            0 <= w < s.remove(i).len() && s.remove(i)[w].position == s[i].position;
        if w < i {
            assert(pos_lt(s[w].position, s[i].position));
            lemma_pos_order_asym(s[w].position, s[i].position);
        } else {
            assert(pos_lt(s[i].position, s[w + 1].position));
            lemma_pos_order_asym(s[i].position, s[w + 1].position);
        }
    }
}

/// Applies one event to the document and decides what to broadcast.
///
/// A local `Insert` or `Delete` is resolved against the rendered content,
/// applied, and answered with the `RemoteInsert` or `RemoteDelete` carrying
/// the affected atoms, tagged with this node's identifier, for propagation
/// to peers. A remote event is applied atom by atom — insertion is
/// idempotent and deletion tolerates absence — and nothing is broadcast.
pub fn step(doc: &mut Document, node_id: i64, event: Event) -> (r: Option<Event>)
    requires
        old(doc).wf(),
    ensures
        final(doc).wf(),
        final(doc).site == old(doc).site,
        event matches Event::Insert { lines, range } ==> {
            &&& (spec_point_offset(old(doc).spec_content(), range.start) is None ==> r is None
                && final(doc)@ == old(doc)@)
            &&& (spec_point_offset(old(doc).spec_content(), range.start) matches Some(o) ==> (
            r matches Some(Event::RemoteInsert { id, lines: minted }) && {
                &&& id == node_id
                &&& minted@.len() <= lines@.len()
                &&& (forall|k: int| 0 <= k < minted@.len() ==> minted@[k]@.val == lines@[k])
                &&& (forall|k: int|
                    0 <= k < minted@.len() ==> !malformed(#[trigger] minted@[k]@)
                        && minted@[k]@.clock == 0 && minted@[k]@.position.last().site == old(
                        doc,
                    ).site && PAGE_MIN < minted@[k]@.position.last().digit < PAGE_MAX)
                &&& final(doc).spec_content() == old(doc).spec_content().subrange(0, o)
                    + lines@.subrange(0, minted@.len() as int) + old(doc).spec_content().subrange(
                    o,
                    old(doc).spec_content().len() as int,
                )
                &&& (minted@.len() < lines@.len() ==> !(crate::position::create_ok(
                    final(doc).site,
                    final(doc)@[o + minted@.len() as int].position,
                    final(doc)@[o + minted@.len() as int + 1].position,
                ) && crate::position::mint_well_formed(
                    final(doc).site,
                    final(doc)@[o + minted@.len() as int].position,
                    final(doc)@[o + minted@.len() as int + 1].position,
                )))
            }))
        },
        event matches Event::Delete { range } ==> {
            &&& (spec_span(old(doc).spec_content(), range) is None ==> r is None && final(doc)@
                == old(doc)@)
            &&& (spec_span(old(doc).spec_content(), range) matches Some(sp) ==> (
            r matches Some(Event::RemoteDelete { id, lines: removed }) && {
                &&& id == node_id
                &&& removed@.len() == sp.1 - sp.0
                &&& (forall|t: int|
                    0 <= t < removed@.len() ==> removed@[t]@ == old(doc)@[sp.0 + 1 + t])
                &&& final(doc).spec_content() == old(doc).spec_content().subrange(0, sp.0) + old(
                    doc,
                ).spec_content().subrange(sp.1, old(doc).spec_content().len() as int)
            }))
        },
        event matches Event::RemoteInsert { id, lines } ==> r is None && (forall|k: int|
            0 <= k < lines@.len() && !malformed(lines@[k]@) ==> contains_pos(
                final(doc)@,
                lines@[k]@.position,
            )),
        event matches Event::RemoteDelete { id, lines } ==> r is None && (forall|k: int|
            0 <= k < lines@.len() && !malformed(lines@[k]@) ==> !contains_pos(
                final(doc)@,
                lines@[k]@.position,
            )),
{
    match event {
        Event::Insert { lines, range } => {
            let n = doc.atoms.len();
            let vs_opt = doc.line_start(range.start.row);
            match vs_opt {
                None => None,
                Some(vs) => {
                    proof {
                        crate::document::lemma_line_start_bounds(
                            doc.spec_content(),
                            range.start.row as nat,
                        );
                    }
                    if range.start.column > (n - 2) - vs {
                        return None;
                    }
                    let o = vs + range.start.column;
                    let ghost old_content = doc.spec_content();
                    let ghost old_site = doc.site;
                    let mut minted: Vec<Atom> = Vec::new();
                    let mut k: usize = 0;
                    let mut stopped = false;
                    while k < lines.len() && !stopped
                        invariant
                            doc.wf(),
                            doc.site == old_site,
                            o <= old_content.len(),
                            k <= lines@.len(),
                            minted@.len() == k,
                            forall|t: int| 0 <= t < k ==> minted@[t]@.val == lines@[t],
                            forall|t: int|
                                0 <= t < k ==> !malformed(#[trigger] minted@[t]@)
                                    && minted@[t]@.clock == 0
                                    && minted@[t]@.position.last().site == old_site && PAGE_MIN
                                    < minted@[t]@.position.last().digit < PAGE_MAX,
                            doc.spec_content() == old_content.subrange(0, o as int)
                                + lines@.subrange(0, k as int) + old_content.subrange(
                                o as int,
                                old_content.len() as int,
                            ),
                            stopped ==> k < lines@.len() && !(crate::position::create_ok(
                                doc.site,
                                doc@[o as int + k].position,
                                doc@[o as int + k + 1].position,
                            ) && crate::position::mint_well_formed(
                                doc.site,
                                doc@[o as int + k].position,
                                doc@[o as int + k + 1].position,
                            )),
                        decreases lines@.len() - k + (if stopped { 0int } else { 1int }),
                    {
                        proof {
                            assert(doc.spec_content().len() == old_content.len() + k);
                        }
                        let ghost pre_content = doc.spec_content();
                        let cur = doc.atoms.len();
                        proof {
                            assert(cur == old_content.len() + k + 2);
                            assert(o + k < cur);
                        }
                        match doc.local_insert(o + k, lines[k]) {
                            Ok(a) => {
                                minted.push(a);
                                proof {
                                    assert(doc.spec_content() =~= old_content.subrange(0, o as int)
                                        + lines@.subrange(0, k as int + 1)
                                        + old_content.subrange(
                                        o as int,
                                        old_content.len() as int,
                                    ));
                                }
                                k += 1;
                            },
                            Err(_) => {
                                stopped = true;
                            },
                        }
                    }
                    proof {
                        assert(lines@.subrange(0, minted@.len() as int) =~= lines@.subrange(
                            0,
                            k as int,
                        ));
                    }
                    Some(Event::RemoteInsert { id: node_id, lines: minted })
                },
            }
        },
        Event::Delete { range } => {
            let n = doc.atoms.len();
            let so_opt = doc.line_start(range.start.row);
            let eo_opt = doc.line_start(range.end.row);
            let so: usize = match so_opt {
                None => {
                    return None;
                },
                Some(vs) => {
                    proof {
                        crate::document::lemma_line_start_bounds(
                            doc.spec_content(),
                            range.start.row as nat,
                        );
                    }
                    if range.start.column > (n - 2) - vs {
                        return None;
                    }
                    vs + range.start.column
                },
            };
            let eo: usize = match eo_opt {
                None => {
                    return None;
                },
                Some(vs) => {
                    proof {
                        crate::document::lemma_line_start_bounds(
                            doc.spec_content(),
                            range.end.row as nat,
                        );
                    }
                    if range.end.column > (n - 2) - vs {
                        return None;
                    }
                    vs + range.end.column
                },
            };
            if eo < so {
                return None;
            }
            let ghost old_content = doc.spec_content();
            let ghost old_view = doc@;
            let ghost old_site = doc.site;
            let mut removed: Vec<Atom> = Vec::new();
            let mut j: usize = 0;
            while j < eo - so
                invariant
                    doc.wf(),
                    doc.site == old_site,
                    so <= eo <= old_content.len(),
                    old_view.len() == old_content.len() + 2,
                    j <= eo - so,
                    removed@.len() == j,
                    forall|t: int| 0 <= t < j ==> removed@[t]@ == old_view[so as int + 1 + t],
                    doc.spec_content() == old_content.subrange(0, so as int)
                        + old_content.subrange(so as int + j, old_content.len() as int),
                    doc@ == old_view.subrange(0, so as int + 1) + old_view.subrange(
                        so as int + 1 + j,
                        old_view.len() as int,
                    ),
                decreases eo - so - j,
            {
                let ghost pre_view = doc@;
                match doc.local_delete(so) {
                    Ok(a) => {
                        removed.push(a);
                        proof {
                            assert(a@ == pre_view[so as int + 1]);
                            assert(pre_view[so as int + 1] == old_view[so as int + 1 + j]);
                            assert(doc.spec_content() =~= old_content.subrange(0, so as int)
                                + old_content.subrange(
                                so as int + j + 1,
                                old_content.len() as int,
                            ));
                            assert(doc@ =~= old_view.subrange(0, so as int + 1)
                                + old_view.subrange(so as int + 1 + j + 1, old_view.len() as int));
                        }
                        j += 1;
                    },
                    Err(_) => {
                        proof {
                            assert(false);
                        }
                    },
                }
            }
            proof {
                assert(doc.spec_content() == old_content.subrange(0, so as int)
                    + old_content.subrange(eo as int, old_content.len() as int));
            }
            Some(Event::RemoteDelete { id: node_id, lines: removed })
        },
        Event::RemoteInsert { id: _, lines } => {
            let ghost old_site = doc.site;
            let mut k: usize = 0;
            while k < lines.len()
                invariant
                    doc.wf(),
                    doc.site == old_site,
                    k <= lines@.len(),
                    forall|t: int|
                        0 <= t < k && !malformed(lines@[t]@) ==> contains_pos(
                            doc@,
                            lines@[t]@.position,
                        ),
                decreases lines@.len() - k,
            {
                let ghost pre_view = doc@;
                let a = &lines[k];
                let res = doc.remote_insert(a);
                proof {
                    match res {
                        Ok(v) => {
                            lemma_remote_insert_idempotent(pre_view, v as int, a@);
                            assert forall|t: int|
                                0 <= t < k + 1 && !malformed(lines@[t]@) implies contains_pos(
                                doc@,
                                lines@[t]@.position,
                            ) by {
                                if t < k {
                                    lemma_contains_pos_insert(
                                        pre_view,
                                        v as int + 1,
                                        a@,
                                        lines@[t]@.position,
                                    );
                                }
                            }
                        },
                        Err(_) => {},
                    }
                }
                k += 1;
            }
            None
        },
        Event::RemoteDelete { id: _, lines } => {
            let ghost old_site = doc.site;
            let mut k: usize = 0;
            while k < lines.len()
                invariant
                    doc.wf(),
                    doc.site == old_site,
                    k <= lines@.len(),
                    forall|t: int|
                        0 <= t < k && !malformed(lines@[t]@) ==> !contains_pos(
                            doc@,
                            lines@[t]@.position,
                        ),
                decreases lines@.len() - k,
            {
                let ghost pre_view = doc@;
                let a = &lines[k];
                let res = doc.remote_delete(a);
                proof {
                    match res {
                        Ok(v) => {
                            lemma_remove_only_occurrence(pre_view, v as int + 1);
                            assert forall|t: int|
                                0 <= t < k + 1 && !malformed(lines@[t]@) implies !contains_pos(
                                doc@,
                                lines@[t]@.position,
                            ) by {
                                if t < k {
                                    lemma_not_contains_pos_remove(
                                        pre_view,
                                        v as int + 1,
                                        lines@[t]@.position,
                                    );
                                }
                            }
                        },
                        Err(_) => {},
                    }
                }
                k += 1;
            }
            None
        },
    }
}

} // verus!
