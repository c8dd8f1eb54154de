use logoot_core::atom::Atom;
use logoot_core::document::{DocError, Document};
use logoot_core::id::{Id, PAGE_MAX, PAGE_MIN};
use logoot_core::node::{step, Event};
use logoot_core::position::Position;
use logoot_core::range::Range;

/// Dense allocation with a gap of exactly one admissible digit is forced:
/// between digits 1 and 3 only digit 2 exists, whatever the random draw.
#[test]
fn allocator_forced_digit() {
    let p = Position::create(5, &[Id::new(1, 1)], &[Id::new(3, 2)]);
    assert_eq!(p.len(), 1);
    assert_eq!(p.0[0].digit, 2);
    assert_eq!(p.0[0].site, 5);
}

/// Strict betweenness of the allocator on a wider gap, and the boundary
/// digits never come out.
#[test]
fn allocator_strictly_between() {
    let before = [Id::new(4, 1)];
    let after = [Id::new(9, 1)];
    for _ in 0..64 {
        let p = Position::create(7, &before, &after);
        assert_eq!(p.len(), 1);
        assert!(4 < p.0[0].digit && p.0[0].digit < 9);
    }
}

/// The allocator never returns `PAGE_MIN` or `PAGE_MAX` as the final digit,
/// here allocating against both sentinels.
#[test]
fn allocator_avoids_sentinel_digits() {
    for site in 0..32i64 {
        let p = Position::create(site, &[Id::new(PAGE_MIN, site)], &[Id::new(PAGE_MAX, site)]);
        let last = p.0[p.len() - 1];
        assert!(PAGE_MIN < last.digit && last.digit < PAGE_MAX);
    }
}

/// Equal digits with different sites leave no room at this depth, so the
/// allocator descends a level, keeping the lower side as its prefix.
#[test]
fn allocator_descends_on_site_tiebreak() {
    let before = [Id::new(3, 1)];
    let after = [Id::new(3, 2)];
    let p = Position::create(9, &before, &after);
    assert!(p.len() >= 2);
    assert_eq!(p.0[0], Id::new(3, 1));
    let before_pos = Position::new(&before);
    let after_pos = Position::new(&after);
    assert!(before_pos.lt(&p));
    assert!(p.lt(&after_pos));
}

/// Every locally minted atom is tagged with the document's own site in its
/// final identifier and is well-formed on the wire: its first digit stays
/// strictly inside the page interval.
#[test]
fn minted_atoms_carry_site() {
    let mut doc = Document::new(42);
    let a = doc.local_insert(0, 'a').unwrap();
    let b = doc.local_insert(1, 'b').unwrap();
    for at in [&a, &b] {
        let last = at.position.0[at.position.0.len() - 1];
        assert_eq!(last.site, 42);
        assert!(PAGE_MIN < at.position.0[0].digit && at.position.0[0].digit < PAGE_MAX);
    }
}

/// A pair whose only own-site mints would start with a sentinel digit —
/// here the low sentinel against a neighbour with first digit one — is
/// refused rather than minting an atom every peer would reject.
#[test]
fn mint_that_would_be_malformed_is_refused() {
    let mut doc = Document::new(5);
    doc.remote_insert(&Atom::new(Position::new(&[Id::new(1, 7)]), 0, 'r')).unwrap();
    assert_eq!(doc.local_insert(0, 'w').unwrap_err(), DocError::ContractViolation);
    assert_eq!(doc.content(), "r");
    doc.local_insert(1, 's').unwrap();
    assert_eq!(doc.content(), "rs");
}

/// Inserting then deleting the same offset restores the content and the
/// visible length.
#[test]
fn insert_delete_roundtrip() {
    let mut doc = Document::new(1);
    doc.local_insert(0, 'a').unwrap();
    doc.local_insert(1, 'c').unwrap();
    let before_content = doc.content();
    let before_len = doc.visible_len();

    doc.local_insert(1, 'b').unwrap();
    assert_eq!(doc.content(), "abc");
    let removed = doc.local_delete(1).unwrap();
    assert_eq!(removed.val, 'b');

    assert_eq!(doc.content(), before_content);
    assert_eq!(doc.visible_len(), before_len);
}

/// Inserting at offset zero prepends; inserting at `visible_len` appends.
#[test]
fn insert_boundaries() {
    let mut doc = Document::new(1);
    doc.local_insert(0, 'm').unwrap();
    doc.local_insert(0, 'x').unwrap();
    assert_eq!(doc.content(), "xm");
    let end = doc.visible_len();
    doc.local_insert(end, 'z').unwrap();
    assert_eq!(doc.content(), "xmz");
}

/// Two replicas that start identical and concurrently insert at the same
/// offset converge to the same content after exchanging the atoms, and the
/// outcome is one of the two interleavings.
#[test]
fn concurrent_inserts_converge() {
    let mut a = Document::new(1);
    let at_a = a.local_insert(0, 'a').unwrap();
    let at_b = a.local_insert(1, 'b').unwrap();

    let mut b = Document::new(2);
    b.remote_insert(&at_a).unwrap();
    b.remote_insert(&at_b).unwrap();
    assert_eq!(a.content(), "ab");
    assert_eq!(b.content(), "ab");

    let x = a.local_insert(1, 'X').unwrap();
    let y = b.local_insert(1, 'Y').unwrap();

    a.remote_insert(&y).unwrap();
    b.remote_insert(&x).unwrap();

    let ca = a.content();
    let cb = b.content();
    assert_eq!(ca, cb);
    assert!(ca == "aXYb" || ca == "aYXb");
}

/// Redelivering an insert reports `Duplicate` and changes nothing.
#[test]
fn idempotent_delivery() {
    let mut a = Document::new(1);
    let atom = a.local_insert(0, 'q').unwrap();

    let mut b = Document::new(2);
    assert!(b.remote_insert(&atom).is_ok());
    let once = b.content();
    assert_eq!(b.remote_insert(&atom), Err(DocError::Duplicate));
    assert_eq!(b.content(), once);
}

/// A remote delete for an absent position reports `NotFound`; a delivered
/// delete removes exactly its atom.
#[test]
fn remote_delete_found_and_not_found() {
    let mut a = Document::new(1);
    let atom = a.local_insert(0, 'k').unwrap();

    let mut b = Document::new(2);
    assert_eq!(b.remote_delete(&atom), Err(DocError::NotFound));
    b.remote_insert(&atom).unwrap();
    assert_eq!(b.remote_delete(&atom), Ok(0));
    assert_eq!(b.content(), "");
}

/// A wire atom with an empty position or a sentinel first digit is
/// rejected as malformed by both remote operations.
#[test]
fn malformed_atoms_rejected() {
    let mut doc = Document::new(1);
    let empty = Atom::new(Position::new(&[]), 0, 'x');
    let low = Atom::new(Position::new(&[Id::new(PAGE_MIN, 4)]), 0, 'x');
    let high = Atom::new(Position::new(&[Id::new(PAGE_MAX, 4)]), 0, 'x');
    assert_eq!(doc.remote_insert(&empty), Err(DocError::MalformedAtom));
    assert_eq!(doc.remote_insert(&low), Err(DocError::MalformedAtom));
    assert_eq!(doc.remote_insert(&high), Err(DocError::MalformedAtom));
    assert_eq!(doc.remote_delete(&empty), Err(DocError::MalformedAtom));
    assert_eq!(doc.content(), "");
}

/// Offsets outside the visible content are rejected with `OutOfRange` and
/// leave the document unchanged.
#[test]
fn out_of_range_edits() {
    let mut doc = Document::new(1);
    assert_eq!(doc.local_delete(0).unwrap_err(), DocError::OutOfRange);
    assert_eq!(doc.local_insert(1, 'a').unwrap_err(), DocError::OutOfRange);
    doc.local_insert(0, 'a').unwrap();
    assert_eq!(doc.local_insert(3, 'b').unwrap_err(), DocError::OutOfRange);
    assert_eq!(doc.content(), "a");
}

/// A flanking pair whose right side hides a floor identifier of a lower
/// site leaves no digit to draw; the insert reports `ContractViolation`
/// rather than corrupting the order.
#[test]
fn unsafe_flanking_pair_reports_contract_violation() {
    let mut doc = Document::new(3);
    doc.remote_insert(&Atom::new(Position::new(&[Id::new(5, 1)]), 0, 'u')).unwrap();
    doc.remote_insert(&Atom::new(
        Position::new(&[Id::new(5, 1), Id::new(PAGE_MIN, 2), Id::new(4, 2)]),
        0,
        'v',
    ))
    .unwrap();
    assert_eq!(doc.content(), "uv");
    assert_eq!(doc.local_insert(1, 'w').unwrap_err(), DocError::ContractViolation);
    assert_eq!(doc.content(), "uv");
}

/// Dense interleaving: repeated insertion between two fixed neighbours.
/// Positions grow in length but every insert succeeds and the content stays
/// strictly sorted.
#[test]
fn dense_interleaving() {
    let mut doc = Document::new(1);
    doc.local_insert(0, 'a').unwrap();
    doc.local_insert(1, 'b').unwrap();
    for _ in 0..500 {
        doc.local_insert(1, 'x').unwrap();
    }
    assert_eq!(doc.visible_len(), 502);
    let line = doc.line(0).unwrap();
    assert!(line.windows(2).all(|w| w[0].precedes(&w[1])));
}

/// The node's decision step: a local insert event updates the document and
/// yields the `RemoteInsert` to broadcast; replaying it on a peer through
/// the same step converges the two replicas.
#[test]
fn step_local_insert_and_replicate() {
    let mut a = Document::new(1);
    let out = step(
        &mut a,
        1,
        Event::Insert { lines: vec!['h', 'i'], range: Range::new((0, 0), (0, 0)) },
    );
    assert_eq!(a.content(), "hi");
    let ev = out.expect("a local insert inside the content must broadcast");
    match &ev {
        Event::RemoteInsert { id, lines } => {
            assert_eq!(*id, 1);
            assert_eq!(lines.len(), 2);
        }
        _ => panic!("a local insert must broadcast a remote insert"),
    }

    let mut b = Document::new(2);
    let echo = step(&mut b, 2, ev);
    assert!(echo.is_none());
    assert_eq!(b.content(), "hi");
}

/// The node's decision step: a local delete event removes the span and
/// yields the `RemoteDelete` to broadcast; applying it on a peer removes
/// the same atoms there.
#[test]
fn step_local_delete_and_replicate() {
    let mut a = Document::new(1);
    let mut b = Document::new(2);
    let ev = step(
        &mut a,
        1,
        Event::Insert { lines: vec!['h', 'e', 'y'], range: Range::new((0, 0), (0, 0)) },
    )
    .unwrap();
    step(&mut b, 2, ev);
    assert_eq!(a.content(), "hey");
    assert_eq!(b.content(), "hey");

    let del_ev = step(&mut a, 1, Event::Delete { range: Range::new((0, 0), (0, 2)) })
        .expect("a delete of a valid span must broadcast");
    assert_eq!(a.content(), "y");
    match &del_ev {
        Event::RemoteDelete { id, lines } => {
            assert_eq!(*id, 1);
            assert_eq!(lines.len(), 2);
        }
        _ => panic!("a local delete must broadcast a remote delete"),
    }
    step(&mut b, 2, del_ev);
    assert_eq!(b.content(), "y");
}

/// Display projection: rows split on newline characters; `line` returns the
/// row's atoms with the sentinels on the outer rows, and `node` falls back
/// to the sentinels outside the content.
#[test]
fn lines_and_nodes() {
    let mut doc = Document::new(6);
    doc.local_insert(0, 'a').unwrap();
    doc.local_insert(1, '\n').unwrap();
    doc.local_insert(2, 'b').unwrap();

    let first = doc.line(0).unwrap();
    assert_eq!(first.len(), 3);
    assert_eq!(first[1].val, 'a');
    assert_eq!(first[2].val, '\n');
    let second = doc.line(1).unwrap();
    assert_eq!(second.len(), 2);
    assert_eq!(second[0].val, 'b');
    assert!(doc.line(2).is_none());

    assert_eq!(doc.node(0, 1).val, 'a');
    assert_eq!(doc.node(1, 0).val, 'b');
    let min = doc.node(9, 0);
    assert_eq!(min.position.0[0].digit, PAGE_MIN);
    let max = doc.node(0, 40);
    assert_eq!(max.position.0[0].digit, PAGE_MAX);
    assert_eq!(doc.virtual_min(), min);
    assert_eq!(doc.virtual_max(), max);
}

/// Atoms compare by position alone; the clock never participates.
#[test]
fn atom_order_ignores_clock() {
    let lo = Atom::new(Position::new(&[Id::new(2, 1)]), 99, 'a');
    let hi = Atom::new(Position::new(&[Id::new(2, 2)]), 0, 'b');
    assert!(lo.precedes(&hi));
    assert!(!hi.precedes(&lo));
    let same = Atom::new(Position::new(&[Id::new(2, 1)]), 0, 'a');
    assert!(!lo.precedes(&same));
    assert!(!same.precedes(&lo));
}

/// The shorter of two positions sharing a prefix is the smaller one, and
/// identifier order is lexicographic on digit then site.
#[test]
fn position_order_basics() {
    let short = Position::new(&[Id::new(3, 1)]);
    let long = Position::new(&[Id::new(3, 1), Id::new(1, 1)]);
    assert!(short.lt(&long));
    assert!(!long.lt(&short));

    let by_digit = Position::new(&[Id::new(4, 0)]);
    assert!(short.lt(&by_digit));
    let by_site = Position::new(&[Id::new(3, 2)]);
    assert!(short.lt(&by_site));
    assert_eq!(short, Position::new(&[Id::new(3, 1)]));
}
