use thinker::{Row, SearchDirection};

fn row_text(row: &Row) -> String {
    row.content().iter().collect()
}

#[test]
fn row_from_counts_characters_not_bytes() {
    let row = Row::from("a\u{e9}\u{4e16}\u{1F600}");
    assert_eq!(row.len(), 4);
    assert!(!row.is_empty());
    assert!(!row.is_highlighted());
    assert!(Row::from("").is_empty());
    assert_eq!(Row::default().len(), 0);
}

#[test]
fn row_insert_clamps_to_the_end() {
    let mut row = Row::from("abc");
    row.insert(1, 'x');
    assert_eq!(row_text(&row), "axbc");
    row.insert(4, 'y');
    assert_eq!(row_text(&row), "axbcy");
    row.insert(usize::MAX, 'z');
    assert_eq!(row_text(&row), "axbcyz");
}

#[test]
fn row_delete_out_of_range_is_ignored() {
    let mut row = Row::from("abc");
    row.delete(3);
    row.delete(usize::MAX);
    assert_eq!(row_text(&row), "abc");
    row.delete(1);
    assert_eq!(row_text(&row), "ac");
    row.delete(0);
    assert_eq!(row_text(&row), "c");
}

#[test]
fn row_split_keeps_every_character_once() {
    for at in 0..7usize {
        let mut row = Row::from("h\u{e9}llo");
        let rest = row.split(at);
        let cut = if at < 5 { at } else { 5 };
        assert_eq!(row.len(), cut);
        assert_eq!(rest.len(), 5 - cut);
        assert_eq!(format!("{}{}", row_text(&row), row_text(&rest)), "h\u{e9}llo");
        assert!(!row.is_highlighted());
        assert!(!rest.is_highlighted());
    }
}

#[test]
fn row_append_leaves_the_other_row() {
    let mut row = Row::from("ab");
    let other = Row::from("cd");
    row.append(&other);
    assert_eq!(row_text(&row), "abcd");
    assert_eq!(row_text(&other), "cd");
    row.append(&Row::default());
    assert_eq!(row_text(&row), "abcd");
}

#[test]
fn row_as_bytes_is_utf8() {
    let samples = [
        "",
        "plain ascii",
        "\u{7f}\u{80}\u{7ff}\u{800}\u{ffff}\u{10000}\u{10ffff}",
        "h\u{e9}llo w\u{f6}rld \u{4e16}\u{754c} \u{1F600}",
        "\u{d7ff}\u{e000}\u{0}",
    ];
    for sample in samples {
        assert_eq!(Row::from(sample).as_bytes(), sample.as_bytes().to_vec());
    }
}

#[test]
fn row_as_bytes_of_every_boundary_character() {
    let marks = [
        0x00u32, 0x0A, 0x7F, 0x80, 0x7FF, 0x800, 0xD7FF, 0xE000, 0xFFFF, 0x10000, 0x3FFFF, 0x10FFFF,
    ];
    for mark in marks {
        let c = char::from_u32(mark).unwrap();
        let mut row = Row::default();
        row.insert(0, c);
        let mut buffer = [0u8; 4];
        assert_eq!(row.as_bytes(), c.encode_utf8(&mut buffer).as_bytes().to_vec());
    }
}

#[test]
fn row_find_forward_gives_lowest_column_from_start() {
    let row = Row::from("ab ab ab");
    assert_eq!(row.find("ab", 0, SearchDirection::Forward), Some(0));
    assert_eq!(row.find("ab", 1, SearchDirection::Forward), Some(3));
    assert_eq!(row.find("ab", 3, SearchDirection::Forward), Some(3));
    assert_eq!(row.find("ab", 6, SearchDirection::Forward), Some(6));
    assert_eq!(row.find("ab", 7, SearchDirection::Forward), None);
    assert_eq!(row.find("ab", 100, SearchDirection::Forward), None);
    assert_eq!(row.find("abc", 0, SearchDirection::Forward), None);
    assert_eq!(row.find("AB", 0, SearchDirection::Forward), None);
}

#[test]
fn row_find_backward_gives_highest_column_that_ends_by_the_bound() {
    let row = Row::from("ab ab ab");
    assert_eq!(row.find("ab", 8, SearchDirection::Backward), Some(6));
    assert_eq!(row.find("ab", 100, SearchDirection::Backward), Some(6));
    assert_eq!(row.find("ab", 7, SearchDirection::Backward), Some(3));
    assert_eq!(row.find("ab", 5, SearchDirection::Backward), Some(3));
    assert_eq!(row.find("ab", 4, SearchDirection::Backward), Some(0));
    assert_eq!(row.find("ab", 3, SearchDirection::Backward), Some(0));
    assert_eq!(row.find("ab", 2, SearchDirection::Backward), Some(0));
    assert_eq!(row.find("ab", 1, SearchDirection::Backward), None);
    assert_eq!(row.find("ab", 0, SearchDirection::Backward), None);
}

#[test]
fn row_find_counts_columns_in_characters() {
    let row = Row::from("\u{e9}\u{e9}\u{1F600}x\u{4e16}x");
    assert_eq!(row.find("x", 0, SearchDirection::Forward), Some(3));
    assert_eq!(row.find("x", 4, SearchDirection::Forward), Some(5));
    assert_eq!(row.find("\u{4e16}x", 0, SearchDirection::Forward), Some(4));
    assert_eq!(row.find("x", 5, SearchDirection::Backward), Some(3));
    assert_eq!(row.find("\u{1F600}", 6, SearchDirection::Backward), Some(2));
}

#[test]
fn row_find_of_empty_query_answers_the_anchor() {
    let row = Row::from("abc");
    assert_eq!(row.find("", 0, SearchDirection::Forward), Some(0));
    assert_eq!(row.find("", 3, SearchDirection::Forward), Some(3));
    assert_eq!(row.find("", 4, SearchDirection::Forward), None);
    assert_eq!(row.find("", 2, SearchDirection::Backward), Some(2));
    assert_eq!(row.find("", 9, SearchDirection::Backward), Some(3));
}
