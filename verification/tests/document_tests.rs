use logoot_core::document::Document;
use logoot_core::id::{Id, PAGE_MAX, PAGE_MIN};
use logoot_core::position::Position;
use logoot_core::atom::Atom;
use logoot_core::range::Point;

fn is_sorted(doc: &Document) -> bool {
    let mut row = 0;
    let mut flattened_doc: Vec<Atom> = Vec::new();

    while let Some(mut nodes) = doc.line(row) {
        flattened_doc.append(&mut nodes);
        row += 1;
    }

    flattened_doc.windows(2).all(|window| window[0].precedes(&window[1]))
}

#[test]
fn test_simple_insert_by_position() {
    let mut doc = Document::new(0);

    doc.point_insert('a', Point::new(0, 0)).unwrap();

    assert_eq!(doc.visible_len(), 1);

    let digit = doc.line(0).unwrap()[1].position.0[0].digit;

    assert!(PAGE_MIN < digit && digit < PAGE_MAX);
}

#[test]
fn test_consecutive_inserts() {
    let mut doc = Document::new(0);

    doc.point_insert('h', Point::new(0, 0)).unwrap();
    doc.point_insert('e', Point::new(0, 1)).unwrap();
    doc.point_insert('l', Point::new(0, 2)).unwrap();
    doc.point_insert('l', Point::new(0, 3)).unwrap();
    doc.point_insert('o', Point::new(0, 4)).unwrap();
    doc.point_insert(' ', Point::new(0, 5)).unwrap();
    doc.point_insert('w', Point::new(0, 6)).unwrap();
    doc.point_insert('o', Point::new(0, 7)).unwrap();
    doc.point_insert('r', Point::new(0, 8)).unwrap();
    doc.point_insert('l', Point::new(0, 9)).unwrap();
    doc.point_insert('d', Point::new(0, 10)).unwrap();

    assert_eq!(doc.content(), "hello world");
    assert!(is_sorted(&doc));
}

#[test]
fn test_insert_by_value() {
    let mut doc = Document::new(0);

    doc.point_insert('h', Point::new(0, 0)).unwrap();
    doc.point_insert('e', Point::new(0, 1)).unwrap();
    doc.point_insert('l', Point::new(0, 2)).unwrap();
    doc.point_insert('l', Point::new(0, 3)).unwrap();
    doc.point_insert('o', Point::new(0, 4)).unwrap();
    doc.point_insert(' ', Point::new(0, 5)).unwrap();
    doc.point_insert('w', Point::new(0, 6)).unwrap();
    doc.point_insert('o', Point::new(0, 7)).unwrap();
    doc.point_insert('r', Point::new(0, 8)).unwrap();
    doc.point_insert('l', Point::new(0, 9)).unwrap();
    doc.point_insert('d', Point::new(0, 10)).unwrap();

    let space = doc.point_delete(0, 6).unwrap().to_owned();

    doc.insert_val(&space);

    assert_eq!(doc.content(), "hello world");
}

#[test]
fn test_insert_by_index_complex() {
    let mut doc = Document::new(0);

    doc.remote_insert(&Atom::new(Position::new(&[Id::new(1, 0)]), 0, 'h')).unwrap();
    doc.remote_insert(&Atom::new(Position::new(&[Id::new(1, 0), Id::new(4, 0)]), 0, 'h'))
        .unwrap();
    doc.remote_insert(&Atom::new(
        Position::new(&[Id::new(1, 0), Id::new(6, 0), Id::new(3, 1)]),
        0,
        'h',
    ))
    .unwrap();
    doc.remote_insert(&Atom::new(Position::new(&[Id::new(1, 0), Id::new(7, 0)]), 0, 'h'))
        .unwrap();
    doc.remote_insert(&Atom::new(Position::new(&[Id::new(1, 1)]), 0, 'h')).unwrap();
    doc.remote_insert(&Atom::new(Position::new(&[Id::new(1, 1), Id::new(1, 1)]), 0, 'h'))
        .unwrap();

    let _ = doc.point_insert('a', Point::new(0, 0));
    let _ = doc.point_insert('a', Point::new(0, 1));
    let _ = doc.point_insert('b', Point::new(0, 6));
    let _ = doc.point_insert('c', Point::new(1, 3));

    assert_eq!(is_sorted(&doc), true);
}

#[test]
fn test_delete_by_value_complex() {
    let mut doc = Document::new(0);

    let deleted_node = Atom::new(
        Position::new(&[Id::new(1, 0), Id::new(6, 0), Id::new(3, 1)]),
        0,
        'h',
    );

    doc.remote_insert(&Atom::new(Position::new(&[Id::new(1, 0)]), 0, 'h')).unwrap();
    doc.remote_insert(&Atom::new(Position::new(&[Id::new(1, 0), Id::new(4, 0)]), 0, 'h'))
        .unwrap();
    doc.remote_insert(&deleted_node.to_owned()).unwrap();
    doc.remote_insert(&Atom::new(Position::new(&[Id::new(1, 0), Id::new(7, 0)]), 0, 'h'))
        .unwrap();
    doc.remote_insert(&Atom::new(Position::new(&[Id::new(1, 1)]), 0, 'h')).unwrap();
    doc.remote_insert(&Atom::new(Position::new(&[Id::new(1, 1), Id::new(1, 1)]), 0, 'h'))
        .unwrap();

    doc.delete_val(&deleted_node);

    assert_eq!(doc.line(0).unwrap().contains(&deleted_node), false);
}

#[test]
fn test_delete_by_value() {
    let mut doc = Document::new(0);

    doc.point_insert('h', Point::new(0, 0)).unwrap();
    doc.point_insert('e', Point::new(0, 1)).unwrap();
    doc.point_insert('l', Point::new(0, 2)).unwrap();
    doc.point_insert('l', Point::new(0, 3)).unwrap();
    doc.point_insert('o', Point::new(0, 4)).unwrap();
    doc.point_insert(' ', Point::new(0, 5)).unwrap();
    doc.point_insert('w', Point::new(0, 6)).unwrap();
    doc.point_insert('o', Point::new(0, 7)).unwrap();
    doc.point_insert('r', Point::new(0, 8)).unwrap();
    doc.point_insert('l', Point::new(0, 9)).unwrap();
    doc.point_insert('d', Point::new(0, 10)).unwrap();

    let space = doc.line(0).unwrap().get(6).unwrap().to_owned();

    doc.delete_val(&space);

    assert_eq!(doc.content(), "helloworld");
}

#[test]
fn test_interleaved_inserts() {
    let mut doc = Document::new(0);

    doc.point_insert('h', Point::new(0, 0)).unwrap();
    doc.point_insert('e', Point::new(0, 0)).unwrap();
    doc.point_insert('l', Point::new(0, 0)).unwrap();
    doc.point_insert('l', Point::new(0, 0)).unwrap();
    doc.point_insert('o', Point::new(0, 0)).unwrap();
    doc.point_insert(' ', Point::new(0, 0)).unwrap();
    doc.point_insert('w', Point::new(0, 0)).unwrap();
    doc.point_insert('o', Point::new(0, 0)).unwrap();
    doc.point_insert('r', Point::new(0, 0)).unwrap();
    doc.point_insert('l', Point::new(0, 0)).unwrap();
    doc.point_insert('d', Point::new(0, 0)).unwrap();

    assert_eq!(doc.content(), "dlrow olleh");
    assert_eq!(is_sorted(&doc), true);
}

#[test]
fn test_delete() {
    let mut doc = Document::new(0);

    doc.point_insert('h', Point::new(0, 0)).unwrap();
    doc.point_insert('e', Point::new(0, 0)).unwrap();
    doc.point_insert('l', Point::new(0, 0)).unwrap();
    doc.point_insert('l', Point::new(0, 0)).unwrap();
    doc.point_insert('o', Point::new(0, 0)).unwrap();
    doc.point_insert(' ', Point::new(0, 0)).unwrap();
    doc.point_insert('w', Point::new(0, 0)).unwrap();
    doc.point_insert('o', Point::new(0, 0)).unwrap();
    doc.point_insert('r', Point::new(0, 0)).unwrap();
    doc.point_insert('l', Point::new(0, 0)).unwrap();
    doc.point_insert('d', Point::new(0, 0)).unwrap();

    let content = doc.content();
    let index_of_space = content
        .find(' ')
        .expect("Content should contain a space character");

    doc.point_delete(0, index_of_space + 1);

    assert_eq!(doc.content(), "dlrowolleh");
    assert_eq!(is_sorted(&doc), true);
}

#[test]
fn test_insert_by_range() {
    let mut doc = Document::new(0);

    doc.remote_insert(&Atom::new(Position::new(&[Id::new(1, 0)]), 0, 'h')).unwrap();
    doc.remote_insert(&Atom::new(Position::new(&[Id::new(1, 0), Id::new(4, 0)]), 0, 'h'))
        .unwrap();
    doc.remote_insert(&Atom::new(
        Position::new(&[Id::new(1, 0), Id::new(6, 0), Id::new(3, 1)]),
        0,
        'h',
    ))
    .unwrap();
    doc.remote_insert(&Atom::new(Position::new(&[Id::new(1, 0), Id::new(7, 0)]), 0, 'h'))
        .unwrap();
    doc.remote_insert(&Atom::new(Position::new(&[Id::new(1, 1)]), 0, 'h')).unwrap();
}
