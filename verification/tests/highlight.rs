use thinker::{Doc, DocType, Highlight, HighlightingOptions, Position, Row};

const P: Highlight = Highlight::Plain;
const N: Highlight = Highlight::Number;
const M: Highlight = Highlight::Match;
const S: Highlight = Highlight::StringLiteral;
const L: Highlight = Highlight::CharLiteral;
const C: Highlight = Highlight::Comment;
const B: Highlight = Highlight::MultilineComment;
const K: Highlight = Highlight::PrimaryKeyword;
const T: Highlight = Highlight::SecondaryKeyword;

fn rust() -> DocType {
    DocType::from("lib.rs")
}

fn classes_of(line: &str, started_in_comment: bool) -> (Vec<Highlight>, bool) {
    let mut row = Row::from(line);
    let rust = rust();
    let open = row.highlight(rust.highlightingoptions(), &None, started_in_comment);
    assert!(row.is_highlighted());
    assert_eq!(row.highlighting().len(), row.len());
    (row.highlighting().clone(), open)
}

fn spans_of(doc: &Doc, index: usize) -> Vec<Highlight> {
    doc.row(index).unwrap().highlighting().clone()
}

#[test]
fn keyword_number_and_line_comment() {
    let (classes, open) = classes_of("let x = 42; // hi", false);
    assert_eq!(classes, vec![K, K, K, P, P, P, P, P, N, N, P, P, C, C, C, C, C]);
    assert!(!open);
}

#[test]
fn keyword_needs_word_boundaries() {
    assert_eq!(classes_of("fn", false).0, vec![K, K]);
    assert_eq!(classes_of("fnx", false).0, vec![P, P, P]);
    assert_eq!(classes_of("xfn", false).0, vec![P, P, P]);
    assert_eq!(classes_of("fn(", false).0, vec![K, K, P]);
    assert_eq!(classes_of("(fn", false).0, vec![P, K, K]);
    assert_eq!(classes_of("my_fn", false).0, vec![P, P, P, P, P]);
    assert_eq!(classes_of("in int", false).0, vec![K, K, P, P, P, P]);
    assert_eq!(classes_of("u8 u80", false).0, vec![T, T, P, P, P, P]);
    assert_eq!(classes_of("usize", false).0, vec![T, T, T, T, T]);
}

#[test]
fn number_starts_a_word_and_takes_digits_and_points() {
    assert_eq!(classes_of("3.14+x", false).0, vec![N, N, N, N, P, P]);
    assert_eq!(classes_of("x1 1x", false).0, vec![P, P, P, N, P]);
    assert_eq!(classes_of("a=10", false).0, vec![P, P, N, N]);
    assert_eq!(classes_of("7", false).0, vec![N]);
}

#[test]
fn string_literal_runs_to_the_closing_quote() {
    assert_eq!(classes_of("\"a\\\"b\" c", false).0, vec![S, S, S, S, S, S, P, P]);
    assert_eq!(classes_of("\"open", false).0, vec![S, S, S, S, S]);
    assert_eq!(classes_of("\"a\\", false).0, vec![S, S, S]);
    assert_eq!(classes_of("\"\"1", false).0, vec![S, S, N]);
    assert_eq!(classes_of("\"\"x", false).0, vec![S, S, P]);
    assert_eq!(classes_of("\"//\" 1", false).0, vec![S, S, S, S, P, N]);
}

#[test]
fn character_literal_needs_its_closing_quote() {
    assert_eq!(classes_of("'a' 'ab", false).0, vec![L, L, L, P, P, P, P]);
    assert_eq!(classes_of("'\\n'", false).0, vec![L, L, L, L]);
    assert_eq!(classes_of("'\\''", false).0, vec![L, L, L, L]);
    assert_eq!(classes_of("''", false).0, vec![P, P]);
    assert_eq!(classes_of("'a", false).0, vec![P, P]);
}

#[test]
fn comment_over_several_lines_hands_its_state_on() {
    assert_eq!(classes_of("a /* b", false), (vec![P, P, B, B, B, B], true));
    assert_eq!(classes_of("c */ d", true), (vec![B, B, B, B, P, P], false));
    assert_eq!(classes_of("still in", true), (vec![B; 8], true));
    assert_eq!(classes_of("", true), (vec![], true));
    assert_eq!(classes_of("", false), (vec![], false));
    assert_eq!(classes_of("/* a */ 1 /* b", false), (vec![B, B, B, B, B, B, B, P, N, P, B, B, B, B], true));
    assert_eq!(classes_of("/*/ 1", false), (vec![B, B, B, B, B], true));
    assert_eq!(classes_of("/**/1", false), (vec![B, B, B, B, N], false));
    assert_eq!(classes_of("/**/x", false), (vec![B, B, B, B, P], false));
    assert_eq!(classes_of("*/ /* x */", true), (vec![B, B, P, B, B, B, B, B, B, B], false));
}

#[test]
fn comment_marks_inside_other_runs_do_not_count() {
    assert_eq!(classes_of("// /* x", false), (vec![C; 7], false));
    assert_eq!(classes_of("\"/*\"", false), (vec![S; 4], false));
    assert_eq!(classes_of("/* // */ 1", false), (vec![B, B, B, B, B, B, B, B, P, N], false));
}

#[test]
fn options_switch_classes_off() {
    let mut row = Row::from("let x = 42; // \"s\" /* c");
    let plain = HighlightingOptions::default();
    let open = row.highlight(&plain, &None, true);
    assert!(!open);
    assert_eq!(row.highlighting().clone(), vec![P; 23]);

    let mut only_numbers = HighlightingOptions::default();
    only_numbers.numbers = true;
    let mut row = Row::from("let 42 \"7\"");
    row.highlight(&only_numbers, &None, false);
    assert_eq!(row.highlighting().clone(), vec![P, P, P, P, N, N, P, P, N, P]);
}

#[test]
fn keyword_lists_come_from_the_options() {
    let mut options = HighlightingOptions::default();
    options.primary_keywords = vec!["begin".chars().collect(), Vec::new(), "end".chars().collect()];
    options.secondary_keywords = vec!["end".chars().collect(), "int".chars().collect()];
    let mut row = Row::from("begin int end fn");
    row.highlight(&options, &None, false);
    assert_eq!(
        row.highlighting().clone(),
        vec![K, K, K, K, K, P, T, T, T, P, K, K, K, P, P, P]
    );
}

#[test]
fn occurrences_of_the_searched_word_are_matches() {
    let rust = rust();
    let mut row = Row::from("let abab = 1;");
    row.highlight(rust.highlightingoptions(), &Some("ab".to_string()), false);
    assert_eq!(row.highlighting().clone(), vec![K, K, K, P, M, M, M, M, P, P, P, N, P]);

    let mut row = Row::from("aaa b");
    row.highlight(rust.highlightingoptions(), &Some("aa".to_string()), false);
    assert_eq!(row.highlighting().clone(), vec![M, M, M, P, P]);

    let mut row = Row::from("// let");
    row.highlight(rust.highlightingoptions(), &Some("let".to_string()), false);
    assert_eq!(row.highlighting().clone(), vec![C, C, C, M, M, M]);

    let mut row = Row::from("fn x");
    row.highlight(rust.highlightingoptions(), &Some(String::new()), false);
    assert_eq!(row.highlighting().clone(), vec![K, K, P, P]);
    row.highlight(rust.highlightingoptions(), &Some("fn x y".to_string()), false);
    assert_eq!(row.highlighting().clone(), vec![K, K, P, P]);
}

#[test]
fn highlighting_keeps_the_text() {
    let rust = rust();
    let mut row = Row::from("let \u{e9} = '\u{4e16}';");
    row.highlight(rust.highlightingoptions(), &Some("\u{e9}".to_string()), false);
    let text: String = row.content().iter().collect();
    assert_eq!(text, "let \u{e9} = '\u{4e16}';");
    assert_eq!(row.highlighting().clone(), vec![K, K, K, P, M, P, P, P, L, L, L, P]);
}

#[test]
fn row_edits_make_the_row_stale() {
    let rust = rust();
    let mut row = Row::from("abc");
    row.highlight(rust.highlightingoptions(), &None, false);
    assert!(row.is_highlighted());
    row.delete(7);
    assert!(row.is_highlighted());
    row.insert(0, 'x');
    assert!(!row.is_highlighted());
    row.highlight(rust.highlightingoptions(), &None, false);
    row.delete(0);
    assert!(!row.is_highlighted());
    row.highlight(rust.highlightingoptions(), &None, false);
    row.append(&Row::from("d"));
    assert!(!row.is_highlighted());
    row.highlight(rust.highlightingoptions(), &None, false);
    let rest = row.split(1);
    assert!(!row.is_highlighted() && !rest.is_highlighted());
    row.highlight(rust.highlightingoptions(), &None, false);
    row.unhighlight();
    assert!(!row.is_highlighted());
}

#[test]
fn document_threads_the_comment_state_through_the_rows() {
    let mut doc = Doc::open("lib.rs", "let a = 1; /* one\ntwo\nthree */ fn\nlet\n");
    doc.highlight(&None, None);
    assert_eq!(
        spans_of(&doc, 0),
        vec![K, K, K, P, P, P, P, P, N, P, P, B, B, B, B, B, B]
    );
    assert_eq!(spans_of(&doc, 1), vec![B, B, B]);
    assert_eq!(spans_of(&doc, 2), vec![B, B, B, B, B, B, B, B, P, K, K]);
    assert_eq!(spans_of(&doc, 3), vec![K, K, K]);
    for i in 0..4 {
        assert!(doc.row(i).unwrap().is_highlighted());
    }
}

#[test]
fn hint_bounds_the_rows_that_are_recomputed() {
    let mut doc = Doc::open("lib.rs", "fn\nlet\nif\nfor\n");
    doc.highlight(&None, Some(1));
    assert!(doc.row(0).unwrap().is_highlighted());
    assert!(doc.row(1).unwrap().is_highlighted());
    assert!(!doc.row(2).unwrap().is_highlighted());
    assert!(!doc.row(3).unwrap().is_highlighted());
    assert_eq!(spans_of(&doc, 1), vec![K, K, K]);
    doc.highlight(&None, Some(0));
    assert!(doc.row(1).unwrap().is_highlighted());
    assert!(!doc.row(2).unwrap().is_highlighted());
    doc.highlight(&None, Some(3));
    assert!(doc.row(3).unwrap().is_highlighted());
    let mut doc = Doc::open("lib.rs", "fn\nlet\n");
    doc.highlight(&None, Some(usize::MAX));
    assert!(doc.row(0).unwrap().is_highlighted());
    assert!(doc.row(1).unwrap().is_highlighted());
    let mut doc = Doc::open("lib.rs", "fn\nlet\n");
    doc.highlight(&None, Some(700));
    assert!(doc.row(1).unwrap().is_highlighted());
    let mut empty = Doc::default();
    empty.highlight(&None, Some(3));
    assert!(empty.is_empty());
}

#[test]
fn highlighting_twice_changes_nothing() {
    let text = "let a = 1; /* one\ntwo */ \"s\" 'c'\n// x\nfn main() { let s = \"let\"; }\n";
    let words = [None, Some("let".to_string()), Some("o".to_string())];
    let hints = [None, Some(0), Some(2), Some(9)];
    for word in &words {
        for hint in hints {
            let mut doc = Doc::open("lib.rs", text);
            doc.highlight(word, hint);
            let mut once = Vec::new();
            for i in 0..doc.len() {
                once.push((doc.row(i).unwrap().is_highlighted(), spans_of(&doc, i)));
            }
            doc.highlight(word, hint);
            for i in 0..doc.len() {
                assert_eq!((doc.row(i).unwrap().is_highlighted(), spans_of(&doc, i)), once[i]);
            }
            assert!(!doc.is_dirty());
        }
    }
}

#[test]
fn edit_in_an_earlier_row_changes_later_rows_after_the_next_pass() {
    let mut doc = Doc::open("lib.rs", "a\nlet\n");
    doc.highlight(&None, None);
    assert_eq!(spans_of(&doc, 1), vec![K, K, K]);
    doc.insert(&Position { x: 1, y: 0 }, '*');
    doc.insert(&Position { x: 1, y: 0 }, '/');
    assert!(!doc.row(1).unwrap().is_highlighted());
    doc.highlight(&None, None);
    assert_eq!(spans_of(&doc, 0), vec![P, B, B]);
    assert_eq!(spans_of(&doc, 1), vec![B, B, B]);
}

#[test]
fn document_without_file_type_is_plain() {
    let mut doc = Doc::open("notes.txt", "let a = 1; // x\n");
    doc.highlight(&Some("a".to_string()), None);
    assert_eq!(
        spans_of(&doc, 0),
        vec![P, P, P, P, M, P, P, P, P, P, P, P, P, P, P]
    );
}
