use thinker::{Doc, Position, SearchDirection};

fn sample() -> Doc {
    Doc::open("notes.txt", "hello world\nfoo\nthe world turns\nlast needle\n")
}

#[test]
fn forward_search_reaches_the_last_row() {
    let doc = sample();
    let found = doc.find("needle", &Position { x: 0, y: 0 }, SearchDirection::Forward);
    assert_eq!(found, Some(Position { x: 5, y: doc.len() - 1 }));
}

#[test]
fn forward_search_does_not_wrap_around() {
    let doc = sample();
    assert_eq!(doc.find("foo", &Position { x: 0, y: 2 }, SearchDirection::Forward), None);
    assert_eq!(doc.find("foo", &Position { x: 1, y: 1 }, SearchDirection::Forward), None);
    assert_eq!(doc.find("needle", &Position { x: 6, y: 3 }, SearchDirection::Forward), None);
}

#[test]
fn forward_search_starts_at_the_column_and_then_at_column_zero() {
    let doc = sample();
    assert_eq!(
        doc.find("world", &Position { x: 0, y: 0 }, SearchDirection::Forward),
        Some(Position { x: 6, y: 0 })
    );
    assert_eq!(
        doc.find("world", &Position { x: 6, y: 0 }, SearchDirection::Forward),
        Some(Position { x: 6, y: 0 })
    );
    assert_eq!(
        doc.find("world", &Position { x: 7, y: 0 }, SearchDirection::Forward),
        Some(Position { x: 4, y: 2 })
    );
    assert_eq!(
        doc.find("the", &Position { x: 9, y: 1 }, SearchDirection::Forward),
        Some(Position { x: 0, y: 2 })
    );
}

#[test]
fn search_from_outside_the_document_finds_nothing() {
    let doc = sample();
    let len = doc.len();
    assert_eq!(doc.find("world", &Position { x: 0, y: len }, SearchDirection::Forward), None);
    assert_eq!(doc.find("world", &Position { x: 0, y: len }, SearchDirection::Backward), None);
    assert_eq!(
        doc.find("world", &Position { x: 0, y: usize::MAX }, SearchDirection::Backward),
        None
    );
    assert_eq!(
        Doc::default().find("a", &Position { x: 0, y: 0 }, SearchDirection::Forward),
        None
    );
}

#[test]
fn search_is_case_sensitive() {
    let doc = sample();
    assert_eq!(doc.find("World", &Position { x: 0, y: 0 }, SearchDirection::Forward), None);
    assert_eq!(doc.find("FOO", &Position { x: 0, y: 3 }, SearchDirection::Backward), None);
}

#[test]
fn backward_search_stays_before_the_start() {
    let doc = sample();
    assert_eq!(doc.find("needle", &Position { x: 0, y: 2 }, SearchDirection::Backward), None);
    assert_eq!(doc.find("needle", &Position { x: 10, y: 3 }, SearchDirection::Backward), None);
    assert_eq!(
        doc.find("needle", &Position { x: 11, y: 3 }, SearchDirection::Backward),
        Some(Position { x: 5, y: 3 })
    );
    assert_eq!(doc.find("hello", &Position { x: 4, y: 0 }, SearchDirection::Backward), None);
    assert_eq!(
        doc.find("hello", &Position { x: 5, y: 0 }, SearchDirection::Backward),
        Some(Position { x: 0, y: 0 })
    );
}

#[test]
fn backward_search_visits_rows_from_the_first_to_the_start() {
    let doc = sample();
    assert_eq!(
        doc.find("world", &Position { x: 15, y: 2 }, SearchDirection::Backward),
        Some(Position { x: 6, y: 0 })
    );
    assert_eq!(
        doc.find("o", &Position { x: 0, y: 1 }, SearchDirection::Backward),
        Some(Position { x: 7, y: 0 })
    );
    assert_eq!(
        doc.find("turns", &Position { x: 40, y: 3 }, SearchDirection::Backward),
        Some(Position { x: 10, y: 2 })
    );
    assert_eq!(
        doc.find("foo", &Position { x: 0, y: 3 }, SearchDirection::Backward),
        Some(Position { x: 0, y: 1 })
    );
}

#[test]
fn backward_search_in_start_row_ends_by_the_column() {
    let doc = Doc::open("notes.txt", "ab ab ab\n");
    assert_eq!(
        doc.find("ab", &Position { x: 7, y: 0 }, SearchDirection::Backward),
        Some(Position { x: 3, y: 0 })
    );
    assert_eq!(
        doc.find("ab", &Position { x: 3, y: 0 }, SearchDirection::Backward),
        Some(Position { x: 0, y: 0 })
    );
    assert_eq!(doc.find("ab", &Position { x: 1, y: 0 }, SearchDirection::Backward), None);
}
