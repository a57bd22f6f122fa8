//! Laws that relate the operations of a document to one another.
//!
//! Each law is stated over the functions that the contracts of the
//! operations use, so it holds of every document that the operations
//! produce.
use vstd::prelude::*;
use vstd::utf8::{decode_utf8, encode_utf8, encode_utf8_decode_utf8};
use crate::doc::{
    is_answer_of_row, is_find_result, is_highlight_result, lines_after_delete,
    lines_after_insert, lines_of, starts_in_comment,
};
use crate::doctype::HighlightingRules;
use crate::position::{Position, SearchDirection};
use crate::row::{clamp_column, Row};
use crate::search::occurs_at;
use crate::text::{
    join_lines, lemma_newline_index_bounds, lemma_newline_index_first, lemma_newline_index_is,
    newline_index, split_lines, without_cr,
};

verus! {

/// A position's column and row lie before those of another position.
pub open spec fn lies_before(c: int, r: int, at: Position) -> bool {
    r < at.y || (r == at.y && c < at.x)
}

/// Cutting a line and joining the halves again gives the lines back.
///
/// A line terminator inserted at column `at.x` of an existing line `at.y`
/// cuts the line in two. A deletion at the end of the first half, which is
/// column `at.x`, or the length of the line where `at.x` lies past it,
/// joins the two halves, and the lines are those from before the insertion.
pub proof fn lemma_cut_then_join(lines: Seq<Seq<char>>, at: Position)
    requires
        at.y < lines.len(),
        lines[at.y as int].len() <= usize::MAX,
    ensures
        ({
            let x = clamp_column(at.x as int, lines[at.y as int].len() as int);
            let end_of_first_half = Position { x: x as usize, y: at.y };
            lines_after_delete(lines_after_insert(lines, at, '\n'), end_of_first_half) == lines
        }),
{
    let y = at.y as int;
    let x = clamp_column(at.x as int, lines[y].len() as int);
    let cut = lines_after_insert(lines, at, '\n');
    let end_of_first_half = Position { x: x as usize, y: at.y };
    assert(cut[y] == lines[y].take(x));
    assert(cut[y + 1] == lines[y].skip(x));
    assert(lines[y].take(x) + lines[y].skip(x) =~= lines[y]);
    assert(lines_after_delete(cut, end_of_first_half) =~= lines);
}

/// A forward search from the start of the document, for a pattern that
/// occurs on the last row and on no other, answers the last row, and there
/// the first column at which the pattern occurs.
pub proof fn lemma_find_reaches_last_row(
    lines: Seq<Seq<char>>,
    pattern: Seq<char>,
    found: Option<Position>,
)
    requires
        lines.len() > 0,
        forall|r: int, c: int|
            0 <= r < lines.len() - 1 ==> !#[trigger] occurs_at(lines[r], pattern, c),
        exists|c: int| #[trigger] occurs_at(lines[lines.len() - 1], pattern, c),
        is_find_result(lines, pattern, Position { x: 0, y: 0 }, SearchDirection::Forward, found),
    ensures
        found is Some,
        found->0.y == lines.len() - 1,
        occurs_at(lines[lines.len() - 1], pattern, found->0.x as int),
        forall|c: int| c < found->0.x ==> !#[trigger] occurs_at(lines[lines.len() - 1], pattern, c),
{
    let last = lines.len() - 1;
    let c = choose|c: int| #[trigger] occurs_at(lines[last], pattern, c);
    match found {
        Some(p) => {
            if p.y < last {
                assert(!occurs_at(lines[p.y as int], pattern, p.x as int));
            }
            let start = Position { x: 0, y: 0 };
            assert(is_answer_of_row(
                lines,
                pattern,
                start,
                SearchDirection::Forward,
                last,
                Some(p.x as int),
            ));
        },
        None => {
            let start = Position { x: 0, y: 0 };
            assert(is_answer_of_row(lines, pattern, start, SearchDirection::Forward, last, None));
            assert(!occurs_at(lines[last], pattern, c));
        },
    }
}

/// A search does not wrap around: a forward search from `from` finds
/// nothing where every occurrence of the pattern lies before `from`.
pub proof fn lemma_find_forward_does_not_wrap(
    lines: Seq<Seq<char>>,
    pattern: Seq<char>,
    from: Position,
    found: Option<Position>,
)
    requires
        forall|r: int, c: int|
            0 <= r < lines.len() && #[trigger] occurs_at(lines[r], pattern, c) ==> lies_before(
                c,
                r,
                from,
            ),
        is_find_result(lines, pattern, from, SearchDirection::Forward, found),
    ensures
        found is None,
{
    if let Some(p) = found {
        assert(occurs_at(lines[p.y as int], pattern, p.x as int));
        assert(lies_before(p.x as int, p.y as int, from));
    }
}

/// A backward search does not look past its start: it finds nothing where
/// every occurrence of the pattern ends after `from`, in the row of `from`
/// or in a later row.
pub proof fn lemma_find_backward_does_not_wrap(
    lines: Seq<Seq<char>>,
    pattern: Seq<char>,
    from: Position,
    found: Option<Position>,
)
    requires
        forall|r: int, c: int|
            0 <= r < lines.len() && #[trigger] occurs_at(lines[r], pattern, c) ==> r > from.y || (r
                == from.y && c + pattern.len() > from.x),
        is_find_result(lines, pattern, from, SearchDirection::Backward, found),
    ensures
        found is None,
{
    if let Some(p) = found {
        assert(occurs_at(lines[p.y as int], pattern, p.x as int));
    }
}

/// A text in the form in which a save writes it: every line ends with a
/// line feed, and no carriage return stands before a line feed.
pub open spec fn is_canonical(text: Seq<char>) -> bool {
    &&& text.len() > 0 ==> text.last() == '\n'
    &&& forall|j: int| 0 < j < text.len() && #[trigger] text[j] == '\n' ==> text[j - 1] != '\r'
}

/// A line that a save writes and a later reading gives back as it is: it
/// holds no line feed and does not end with a carriage return.
pub open spec fn is_plain_line(line: Seq<char>) -> bool {
    &&& forall|j: int| 0 <= j < line.len() ==> line[j] != '\n'
    &&& line.len() > 0 ==> line.last() != '\r'
}

/// The text of a line followed by further lines starts with that line and
/// a line feed.
pub proof fn lemma_join_first(first: Seq<char>, rest: Seq<Seq<char>>)
    ensures
        join_lines(seq![first] + rest) == first + seq!['\n'] + join_lines(rest),
    decreases rest.len(),
{
    let all = seq![first] + rest;
    if rest.len() == 0 {
        assert(all.drop_last() =~= Seq::<Seq<char>>::empty());
        assert(all.last() == first);
        assert(join_lines(all.drop_last()) =~= Seq::<char>::empty());
        assert(join_lines(all) =~= first + seq!['\n'] + join_lines(rest));
    } else {
        assert(all.drop_last() =~= seq![first] + rest.drop_last());
        assert(all.last() == rest.last());
        lemma_join_first(first, rest.drop_last());
        assert(join_lines(all) =~= first + seq!['\n'] + join_lines(rest));
    }
}

/// No line of a text holds a line feed.
pub proof fn lemma_lines_hold_no_line_feed(text: Seq<char>)
    ensures
        forall|i: int, j: int|
            0 <= i < split_lines(text).len() && 0 <= j < split_lines(text)[i].len()
                ==> #[trigger] split_lines(text)[i][j] != '\n',
    decreases text.len(),
{
    if text.len() > 0 {
        let k = newline_index(text);
        lemma_newline_index_bounds(text);
        lemma_newline_index_first(text);
        if k < text.len() {
            let rest = text.skip(k + 1);
            lemma_lines_hold_no_line_feed(rest);
            let head = without_cr(text.take(k));
            assert forall|i: int, j: int|
                0 <= i < split_lines(text).len() && 0 <= j < split_lines(text)[i].len()
                    implies #[trigger] split_lines(text)[i][j] != '\n' by {
                if i == 0 {
                    assert(split_lines(text)[0] == head);
                    assert(head[j] == text[j]);
                } else {
                    assert(split_lines(text)[i] == split_lines(rest)[i - 1]);
                }
            }
        }
    }
}

/// Reading a canonical text and writing its lines gives the text back.
pub proof fn lemma_join_of_split(text: Seq<char>)
    requires
        is_canonical(text),
    ensures
        join_lines(split_lines(text)) == text,
    decreases text.len(),
{
    if text.len() > 0 {
        let k = newline_index(text);
        lemma_newline_index_bounds(text);
        lemma_newline_index_first(text);
        assert(k < text.len()) by {
            if k >= text.len() {
                assert(text[text.len() - 1] != '\n');
            }
        }
        let head = text.take(k);
        let rest = text.skip(k + 1);
        assert(without_cr(head) == head) by {
            if k > 0 {
                assert(head.last() == text[k - 1]);
            }
        }
        assert(is_canonical(rest)) by {
            if rest.len() > 0 {
                assert(rest.last() == text.last());
            }
            assert forall|j: int| 0 < j < rest.len() && #[trigger] rest[j] == '\n' implies rest[j
                - 1] != '\r' by {
                assert(rest[j] == text[k + 1 + j]);
                assert(rest[j - 1] == text[k + j]);
            }
        }
        lemma_join_of_split(rest);
        lemma_join_first(head, split_lines(rest));
        assert(head + seq!['\n'] + rest =~= text);
    }
}

/// Writing plain lines and reading the text gives the lines back.
pub proof fn lemma_split_of_join(lines: Seq<Seq<char>>)
    requires
        forall|i: int| 0 <= i < lines.len() ==> is_plain_line(#[trigger] lines[i]),
    ensures
        split_lines(join_lines(lines)) == lines,
    decreases lines.len(),
{
    if lines.len() == 0 {
        assert(split_lines(join_lines(lines)) =~= lines);
    } else {
        let first = lines[0];
        let rest = lines.drop_first();
        assert(lines =~= seq![first] + rest);
        lemma_join_first(first, rest);
        let text = join_lines(lines);
        assert(text == first + seq!['\n'] + join_lines(rest));
        assert(is_plain_line(first));
        let k = first.len() as int;
        assert(text[k] == '\n');
        assert forall|j: int| 0 <= j < k implies text[j] != '\n' by {
            assert(text[j] == first[j]);
        }
        lemma_newline_index_is(text, k);
        assert(text.take(k) =~= first);
        assert(text.skip(k + 1) =~= join_lines(rest));
        assert forall|i: int| 0 <= i < rest.len() implies is_plain_line(#[trigger] rest[i]) by {
            assert(rest[i] == lines[i + 1]);
        }
        lemma_split_of_join(rest);
        assert(without_cr(first) == first);
        assert(split_lines(text) =~= lines);
    }
}

/// A document that is opened and saved at once writes the bytes that were
/// read, where the text read is canonical.
///
/// A text that is not canonical is written in canonical form: a line feed
/// after every line, and none of the carriage returns that stood before a
/// line feed.
pub proof fn lemma_save_after_open_writes_what_was_read(text: Seq<char>)
    requires
        is_canonical(text),
    ensures
        encode_utf8(join_lines(split_lines(text))) == encode_utf8(text),
{
    lemma_join_of_split(text);
}

/// A document that is opened and saved at once writes a text that has the
/// lines of the text that was read, where none of these lines ends with a
/// carriage return.
pub proof fn lemma_save_after_open_keeps_lines(text: Seq<char>)
    requires
        forall|i: int|
            0 <= i < split_lines(text).len() && (#[trigger] split_lines(text)[i]).len() > 0
                ==> split_lines(text)[i].last() != '\r',
    ensures
        split_lines(decode_utf8(encode_utf8(join_lines(split_lines(text))))) == split_lines(text),
{
    lemma_lines_hold_no_line_feed(text);
    let lines = split_lines(text);
    assert forall|i: int| 0 <= i < lines.len() implies is_plain_line(#[trigger] lines[i]) by {
        assert forall|j: int| 0 <= j < lines[i].len() implies lines[i][j] != '\n' by {
            assert(split_lines(text)[i][j] != '\n');
        }
    }
    lemma_split_of_join(lines);
    encode_utf8_decode_utf8(join_lines(lines));
}

/// Highlighting twice gives what highlighting once gives.
///
/// Of the rows `first`, which a pass made of some rows, a second pass with
/// the same rules, word and hint makes rows with the same text, the same
/// classes and the same state, and every row starts inside a comment after
/// the second pass exactly if it did after the first.
pub proof fn lemma_highlight_twice(
    start: Seq<Row>,
    first: Seq<Row>,
    second: Seq<Row>,
    rules: HighlightingRules,
    word: Option<Seq<char>>,
    until: Option<usize>,
)
    requires
        is_highlight_result(start, first, rules, word, until),
        is_highlight_result(first, second, rules, word, until),
    ensures
        second.len() == first.len(),
        forall|i: int|
            0 <= i < first.len() ==> {
                &&& (#[trigger] second[i])@ == first[i]@
                &&& second[i].spans() == first[i].spans()
                &&& second[i].highlighted() == first[i].highlighted()
            },
        forall|i: int|
            starts_in_comment(lines_of(second), rules, i) == starts_in_comment(
                lines_of(first),
                rules,
                i,
            ),
{
    assert forall|i: int| 0 <= i < first.len() implies {
        &&& (#[trigger] second[i])@ == first[i]@
        &&& second[i].spans() == first[i].spans()
        &&& second[i].highlighted() == first[i].highlighted()
    } by {
        assert(lines_of(second)[i] == lines_of(first)[i]);
        assert(lines_of(first)[i] == lines_of(start)[i]);
    }
}

} // verus!
