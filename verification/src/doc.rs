//! The document: an ordered sequence of rows and the edits on it.
use vstd::prelude::*;
use vstd::utf8::{encode_scalar, encode_utf8};
use crate::doctype::{classify, DocType, HighlightingRules, Profile};
use crate::highlighting::{classes, ends_in_comment};
use crate::position::{Position, SearchDirection};
use crate::row::{clamp_column, is_row_find_result, word_of, Row};
use crate::search::{column_of, to_chars};
use crate::text::{
    join_lines, lemma_encode_utf8_concat, lemma_newline_index_is, push_utf8, split_lines,
    without_cr,
};

verus! {

/// One open text document.
///
/// The rows are the lines of the text in display order; a row is addressed
/// by its index and by nothing else. `doc_name` is the file that the
/// document belongs to, if it has one.
#[derive(Debug)]
pub struct Doc {
    pub doc_name: Option<String>,
    dirty: bool,
    rows: Vec<Row>,
    doc_type: DocType,
}

/// The text of each row.
pub open spec fn lines_of(rows: Seq<Row>) -> Seq<Seq<char>> {
    Seq::new(rows.len(), |i: int| rows[i]@)
}

/// Every row from index `start` on is stale.
pub open spec fn stale_from(rows: Seq<Row>, start: int) -> bool {
    forall|i: int| start <= i < rows.len() ==> !(#[trigger] rows[i]).highlighted()
}

/// The first `end` rows of `after` are those of `before`, with the state of
/// their highlighting.
pub open spec fn same_before(before: Seq<Row>, after: Seq<Row>, end: int) -> bool {
    forall|i: int|
        #![trigger after[i]]
        #![trigger before[i]]
        0 <= i < end && i < before.len() && i < after.len() ==> after[i] == before[i]
}

/// The first row that an edit of row `y` makes stale: the row before `y`,
/// since the edit can change in which state that row hands over to row `y`.
pub open spec fn first_stale_row(y: int) -> int {
    if y > 0 {
        y - 1
    } else {
        0
    }
}

/// The lines of a document after `c` is inserted at `at`.
///
/// A row index past the end leaves the lines as they are. A line terminator
/// appends an empty line if `at.y` is the number of lines, and otherwise
/// cuts line `at.y` before column `at.x` in two. Another character starts a
/// new last line if `at.y` is the number of lines, and otherwise goes before
/// column `at.x` of line `at.y`. A column past the end of the line stands
/// for its end.
pub open spec fn lines_after_insert(lines: Seq<Seq<char>>, at: Position, c: char) -> Seq<
    Seq<char>,
> {
    let y = at.y as int;
    if y > lines.len() {
        lines
    } else if y == lines.len() {
        lines.push(
            if c == '\n' {
                Seq::empty()
            } else {
                seq![c]
            },
        )
    } else {
        let x = clamp_column(at.x as int, lines[y].len() as int);
        if c == '\n' {
            lines.update(y, lines[y].take(x)).insert(y + 1, lines[y].skip(x))
        } else {
            lines.update(y, lines[y].insert(x, c))
        }
    }
}

/// Whether a deletion at `at` joins line `at.y` with the line after it: the
/// column is the end of the line, and there is a next line.
pub open spec fn deletion_joins(lines: Seq<Seq<char>>, at: Position) -> bool {
    at.y + 1 < lines.len() && at.x == lines[at.y as int].len()
}

/// The lines of a document after a deletion at `at`.
///
/// A row index at or past the end leaves the lines as they are. At the end
/// of a line that has a successor, the successor is appended to the line
/// and leaves the sequence. Otherwise the character at column `at.x` leaves
/// line `at.y`, if the line has such a column.
pub open spec fn lines_after_delete(lines: Seq<Seq<char>>, at: Position) -> Seq<Seq<char>> {
    let y = at.y as int;
    if y >= lines.len() {
        lines
    } else if deletion_joins(lines, at) {
        lines.update(y, lines[y] + lines[y + 1]).remove(y + 1)
    } else if at.x < lines[y].len() {
        lines.update(y, lines[y].remove(at.x as int))
    } else {
        lines
    }
}

/// The first and one past the last row that a search from `at` visits.
pub open spec fn search_range(lines: Seq<Seq<char>>, at: Position, direction: SearchDirection) -> (
    int,
    int,
) {
    match direction {
        SearchDirection::Forward => (at.y as int, lines.len() as int),
        SearchDirection::Backward => (0, at.y + 1),
    }
}

/// The column that bounds the search inside row `y`. Forward, it is the
/// first column that may start an occurrence: `at.x` in the row of `at`, and
/// 0 in the rows after it. Backward, it is the column at or before which an
/// occurrence must end: `at.x` in the row of `at`, and the length of the row
/// in the rows before it.
pub open spec fn search_anchor(
    lines: Seq<Seq<char>>,
    at: Position,
    direction: SearchDirection,
    y: int,
) -> int {
    if y == at.y {
        at.x as int
    } else {
        match direction {
            SearchDirection::Forward => 0,
            SearchDirection::Backward => lines[y].len() as int,
        }
    }
}

/// `found` is what the search inside row `y` answers.
pub open spec fn is_answer_of_row(
    lines: Seq<Seq<char>>,
    pattern: Seq<char>,
    at: Position,
    direction: SearchDirection,
    y: int,
    found: Option<int>,
) -> bool {
    is_row_find_result(lines[y], pattern, search_anchor(lines, at, direction, y), direction, found)
}

/// `found` is what a search for `pattern` from `at` answers.
///
/// A start outside the document finds nothing. Otherwise the rows of the
/// range are visited in increasing order, forward from the row of `at` to
/// the last row, backward from the first row to the row of `at`. The answer
/// is the answer of the first visited row that has one; there is none where
/// no visited row has one.
pub open spec fn is_find_result(
    lines: Seq<Seq<char>>,
    pattern: Seq<char>,
    at: Position,
    direction: SearchDirection,
    found: Option<Position>,
) -> bool {
    let (first, end) = search_range(lines, at, direction);
    match found {
        Some(p) => {
            &&& at.y < lines.len()
            &&& first <= p.y < end
            &&& is_answer_of_row(lines, pattern, at, direction, p.y as int, Some(p.x as int))
            &&& forall|r: int|
                first <= r < p.y ==> is_answer_of_row(lines, pattern, at, direction, r, None)
        },
        None => {
            ||| at.y >= lines.len()
            ||| forall|r: int|
                first <= r < end ==> is_answer_of_row(lines, pattern, at, direction, r, None)
        },
    }
}

/// The number of rows that a highlighting pass recomputes: all of them
/// without a hint, and with the hint `until` those up to and with row
/// `until`, as far as the document has them.
pub open spec fn highlight_end(until: Option<usize>, len: int) -> int {
    match until {
        Some(u) => if u + 1 < len {
            u + 1
        } else {
            len
        },
        None => len,
    }
}

/// Whether row `i` starts inside a comment that an earlier row left open:
/// the first row does not, and every other row does if the row before it,
/// started as this function says, ends inside one.
pub open spec fn starts_in_comment(lines: Seq<Seq<char>>, rules: HighlightingRules, i: int) -> bool
    decreases i,
{
    if i <= 0 {
        false
    } else {
        ends_in_comment(lines[i - 1], rules, starts_in_comment(lines, rules, i - 1))
    }
}

/// `after` is what a highlighting pass makes of the rows `before`.
///
/// No row changes its text. Each of the first [`highlight_end`] rows is
/// highlighted, with the classes of its text, started in the state that the
/// rows before it hand over. The other rows stay as they were.
pub open spec fn is_highlight_result(
    before: Seq<Row>,
    after: Seq<Row>,
    rules: HighlightingRules,
    word: Option<Seq<char>>,
    until: Option<usize>,
) -> bool {
    let end = highlight_end(until, before.len() as int);
    &&& after.len() == before.len()
    &&& lines_of(after) == lines_of(before)
    &&& forall|i: int|
        0 <= i < end ==> (#[trigger] after[i]).highlighted() && after[i].spans() == classes(
            before[i]@,
            rules,
            word,
            starts_in_comment(lines_of(before), rules, i),
        )
    &&& forall|i: int| end <= i < before.len() ==> #[trigger] after[i] == before[i]
}

/// The rows whose highlighting is up to date form a prefix.
pub open spec fn fresh_rows_form_prefix(rows: Seq<Row>) -> bool {
    forall|i: int, j: int|
        0 <= i <= j < rows.len() && (#[trigger] rows[j]).highlighted() ==> (
        #[trigger] rows[i]).highlighted()
}

/// Rows that keep a prefix as it was and are stale after it have their
/// fresh rows in a prefix, if they had before.
proof fn lemma_fresh_prefix_kept(before: Seq<Row>, after: Seq<Row>, start: int)
    requires
        fresh_rows_form_prefix(before),
        0 <= start <= before.len(),
        start <= after.len(),
        same_before(before, after, start),
        stale_from(after, start),
    ensures
        fresh_rows_form_prefix(after),
{
    assert forall|i: int, j: int|
        0 <= i <= j < after.len() && (#[trigger] after[j]).highlighted() implies (
    #[trigger] after[i]).highlighted() by {
        assert(j < start);
        assert(after[j] == before[j]);
        assert(after[i] == before[i]);
    }
}

/// The rows that hold the lines of `text`, none of them highlighted.
fn read_rows(text: &Vec<char>) -> (out: Vec<Row>)
    ensures
        lines_of(out@) == split_lines(text@),
        stale_from(out@, 0),
        forall|i: int| 0 <= i < out@.len() ==> (#[trigger] out@[i]).wf(),
{
    let len = text.len();
    let mut out: Vec<Row> = Vec::new();
    let mut line: Vec<char> = Vec::new();
    let ghost mut start: int = 0;
    let mut i: usize = 0;
    assert(text@.skip(0) =~= text@);
    assert(lines_of(out@) =~= Seq::<Seq<char>>::empty());
    assert(lines_of(out@) + split_lines(text@) =~= split_lines(text@));
    while i < len
        invariant
            len == text@.len(),
            0 <= start <= i <= len,
            line@ == text@.subrange(start, i as int),
            forall|j: int| start <= j < i ==> text@[j] != '\n',
            stale_from(out@, 0),
            forall|k: int| 0 <= k < out@.len() ==> (#[trigger] out@[k]).wf(),
            lines_of(out@) + split_lines(text@.skip(start)) == split_lines(text@),
        decreases len - i,
    {
        let c = text[i];
        if c == '\n' {
            proof {
                let rest = text@.skip(start);
                assert forall|j: int| 0 <= j < i - start implies rest[j] != '\n' by {
                    assert(rest[j] == text@[start + j]);
                }
                lemma_newline_index_is(rest, i - start);
                assert(rest.take(i - start) =~= line@);
                assert(rest.skip(i - start + 1) =~= text@.skip(i + 1));
            }
            let ghost whole = line@;
            let ghost done = lines_of(out@);
            if line.len() > 0 && line[line.len() - 1] == '\r' {
                line.pop();
            }
            assert(line@ =~= without_cr(whole));
            out.push(Row::from_chars(line));
            line = Vec::new();
            proof {
                assert(lines_of(out@) =~= done.push(without_cr(whole)));
                assert(lines_of(out@) + split_lines(text@.skip(i + 1)) =~= done + split_lines(
                    text@.skip(start),
                ));
                start = i + 1;
            }
            assert(line@ =~= text@.subrange(start, i + 1));
        } else {
            line.push(c);
            assert(line@ =~= text@.subrange(start, i + 1));
        }
        i += 1;
    }
    if line.len() > 0 {
        let ghost done = lines_of(out@);
        proof {
            let rest = text@.skip(start);
            assert forall|j: int| 0 <= j < len - start implies rest[j] != '\n' by {
                assert(rest[j] == text@[start + j]);
            }
            lemma_newline_index_is(rest, len - start);
            assert(rest =~= line@);
        }
        out.push(Row::from_chars(line));
        assert(lines_of(out@) =~= done + split_lines(text@.skip(start)));
    } else {
        assert(text@.skip(start) =~= Seq::<char>::empty());
        assert(lines_of(out@) =~= lines_of(out@) + split_lines(text@.skip(start)));
    }
    out
}

impl Doc {
    /// The rows of the document.
    pub closed spec fn rows(&self) -> Seq<Row> {
        self.rows@
    }

    /// The name of the file that the document belongs to, if it has one.
    pub closed spec fn name(&self) -> Option<String> {
        self.doc_name
    }

    /// The text of the document, line by line.
    pub open spec fn lines(&self) -> Seq<Seq<char>> {
        lines_of(self.rows())
    }

    /// Whether the document was changed since it was opened or last saved.
    pub closed spec fn dirty(&self) -> bool {
        self.dirty
    }

    /// The language profile of the document.
    pub closed spec fn profile(&self) -> Profile {
        self.doc_type@
    }

    /// Every row is well formed, and the rows whose highlighting is up to
    /// date form a prefix of the document.
    pub open spec fn wf(&self) -> bool {
        &&& forall|i: int| 0 <= i < self.rows().len() ==> (#[trigger] self.rows()[i]).wf()
        &&& fresh_rows_form_prefix(self.rows())
    }

    /// The document of the file called `filename`, whose content is
    /// `contents`.
    ///
    /// The rows are the lines of `contents`, see [`split_lines`]; none is
    /// highlighted. The language is the one that the file name stands for.
    /// The document is not dirty.
    pub fn open(filename: &str, contents: &str) -> (doc: Doc)
        ensures
            doc.wf(),
            doc.name() is Some,
            doc.name()->0@ == filename@,
            !doc.dirty(),
            doc.lines() == split_lines(contents@),
            doc.profile() == classify(filename@),
            stale_from(doc.rows(), 0),
    {
        let text = to_chars(contents);
        let rows = read_rows(&text);
        Doc {
            rows,
            doc_name: Some(filename.to_owned()),
            dirty: false,
            doc_type: DocType::from(filename),
        }
    }

    /// The display name of the document's language.
    pub fn doc_type(&self) -> (name: String)
        ensures
            name@ == self.profile().name,
    {
        self.doc_type.name()
    }

    /// The row at `index`, if the document has one.
    pub fn row(&self, index: usize) -> (row: Option<&Row>)
        ensures
            index < self.rows().len() ==> row == Some(&self.rows()[index as int]),
            index >= self.rows().len() ==> row is None,
    {
        if index < self.rows.len() {
            Some(&self.rows[index])
        } else {
            None
        }
    }

    /// Whether the document has no row.
    pub fn is_empty(&self) -> (b: bool)
        ensures
            b == (self.rows().len() == 0),
    {
        self.rows.len() == 0
    }

    /// The number of rows.
    pub fn len(&self) -> (n: usize)
        ensures
            n == self.rows().len(),
    {
        self.rows.len()
    }

    /// The content of the file that a save writes: every row followed by
    /// one line feed, in UTF-8, in the order of the rows.
    ///
    /// A document without a name has nothing to write: the answer is `None`
    /// and nothing changes. Otherwise the language is resolved anew from the
    /// name. The document stays as dirty as it was: whether the bytes were
    /// written is told to [`Doc::saved`].
    pub fn save(&mut self) -> (image: Option<Vec<u8>>)
        ensures
            final(self).rows() == old(self).rows(),
            final(self).name() == old(self).name(),
            final(self).dirty() == old(self).dirty(),
            match old(self).name() {
                Some(name) => {
                    &&& image is Some
                    &&& image->0@ == encode_utf8(join_lines(old(self).lines()))
                    &&& final(self).profile() == classify(name@)
                },
                None => image is None && *final(self) == *old(self),
            },
    {
        if let Some(file_name) = &self.doc_name {
            self.doc_type = DocType::from(file_name.as_str());
            let mut image: Vec<u8> = Vec::new();
            let mut i: usize = 0;
            assert(self.lines().take(0) =~= Seq::<Seq<char>>::empty());
            assert(image@ =~= encode_utf8(join_lines(self.lines().take(0))));
            while i < self.rows.len()
                invariant
                    i <= self.rows().len(),
                    image@ == encode_utf8(join_lines(self.lines().take(i as int))),
                decreases self.rows.len() - i,
            {
                let ghost before = image@;
                let ghost front = join_lines(self.lines().take(i as int));
                let mut bytes = self.rows[i].as_bytes();
                image.append(&mut bytes);
                push_utf8(&mut image, '\n');
                proof {
                    let line = self.rows()[i as int]@;
                    assert(self.lines().take(i + 1).drop_last() =~= self.lines().take(i as int));
                    assert(self.lines().take(i + 1).last() == line);
                    assert(join_lines(self.lines().take(i + 1)) == front + line + seq!['\n']);
                    lemma_encode_utf8_concat(front + line, seq!['\n']);
                    lemma_encode_utf8_concat(front, line);
                    assert(encode_utf8(seq!['\n']) =~= encode_scalar('\n' as u32)) by {
                        assert(seq!['\n'].drop_first() =~= Seq::<char>::empty());
                        assert(encode_utf8(Seq::<char>::empty()) =~= Seq::<u8>::empty());
                    }
                    assert(image@ =~= encode_utf8(join_lines(self.lines().take(i + 1))));
                }
                i += 1;
            }
            assert(self.lines().take(i as int) =~= self.lines());
            Some(image)
        } else {
            None
        }
    }

    /// Takes note of how writing the bytes of [`Doc::save`] went, and hands
    /// the outcome back.
    ///
    /// After a write that succeeded, a document with a name is no longer
    /// dirty. After one that failed, and in a document without a name,
    /// nothing changes.
    pub fn saved<E>(&mut self, outcome: Result<(), E>) -> (result: Result<(), E>)
        ensures
            result == outcome,
            final(self).rows() == old(self).rows(),
            final(self).name() == old(self).name(),
            final(self).profile() == old(self).profile(),
            final(self).dirty() == if outcome is Ok && old(self).name() is Some {
                false
            } else {
                old(self).dirty()
            },
    {
        if outcome.is_ok() && self.doc_name.is_some() {
            self.dirty = false;
        }
        outcome
    }

    /// Whether the document was changed since it was opened or last saved.
    pub fn is_dirty(&self) -> (b: bool)
        ensures
            b == self.dirty(),
    {
        self.dirty
    }

    /// Inserts a line terminator at `at`.
    fn insert_newline(&mut self, at: &Position)
        requires
            old(self).wf(),
        ensures
            final(self).lines() == lines_after_insert(old(self).lines(), *at, '\n'),
            final(self).rows().len() >= old(self).rows().len(),
            at.y > old(self).rows().len() ==> *final(self) == *old(self),
            final(self).name() == old(self).name(),
            final(self).dirty() == old(self).dirty(),
            final(self).profile() == old(self).profile(),
            same_before(old(self).rows(), final(self).rows(), at.y as int),
            forall|i: int| 0 <= i < final(self).rows().len() ==> (#[trigger] final(self).rows()[i]).wf(),
    {
        if at.y > self.rows.len() {
            return ;
        }
        if at.y == self.rows.len() {
            self.rows.push(Row::default());
            assert(self.lines() =~= lines_after_insert(old(self).lines(), *at, '\n'));
            return ;
        }
        let new_row = self.rows[at.y].split(at.x);
        self.rows.insert(at.y + 1, new_row);
        assert(self.lines() =~= lines_after_insert(old(self).lines(), *at, '\n'));
    }

    /// Inserts `c` at `at`.
    ///
    /// A row index past the number of rows is ignored: nothing changes.
    /// Otherwise the lines change as [`lines_after_insert`] says, the
    /// document is dirty, the rows before the one above `at.y` keep their
    /// state, and every row from there on is stale.
    pub fn insert(&mut self, at: &Position, c: char)
        requires
            old(self).wf(),
        ensures
            final(self).wf(),
            final(self).lines() == lines_after_insert(old(self).lines(), *at, c),
            final(self).name() == old(self).name(),
            final(self).profile() == old(self).profile(),
            at.y > old(self).rows().len() ==> *final(self) == *old(self),
            at.y <= old(self).rows().len() ==> {
                &&& final(self).dirty()
                &&& same_before(old(self).rows(), final(self).rows(), first_stale_row(at.y as int))
                &&& stale_from(final(self).rows(), first_stale_row(at.y as int))
            },
    {
        if at.y > self.rows.len() {
            return ;
        }
        self.dirty = true;
        if c == '\n' {
            self.insert_newline(at);
        } else if at.y == self.rows.len() {
            let mut row = Row::default();
            row.insert(0, c);
            self.rows.push(row);
            assert(row@ =~= seq![c]);
            assert(self.lines() =~= lines_after_insert(old(self).lines(), *at, c));
        } else {
            self.rows[at.y].insert(at.x, c);
            assert(self.lines() =~= lines_after_insert(old(self).lines(), *at, c));
        }
        self.unhighlight_rows(at.y);
        proof {
            lemma_fresh_prefix_kept(old(self).rows(), self.rows(), first_stale_row(at.y as int));
        }
    }

    /// Marks the row before `start` and every row after it as stale.
    fn unhighlight_rows(&mut self, start: usize)
        requires
            forall|i: int| 0 <= i < old(self).rows().len() ==> (#[trigger] old(self).rows()[i]).wf(),
        ensures
            final(self).lines() == old(self).lines(),
            final(self).rows().len() == old(self).rows().len(),
            final(self).name() == old(self).name(),
            final(self).dirty() == old(self).dirty(),
            final(self).profile() == old(self).profile(),
            same_before(old(self).rows(), final(self).rows(), first_stale_row(start as int)),
            stale_from(final(self).rows(), first_stale_row(start as int)),
            forall|i: int| 0 <= i < final(self).rows().len() ==> (#[trigger] final(self).rows()[i]).wf(),
    {
        let start: usize = start.saturating_sub(1);
        let mut i: usize = start;
        while i < self.rows.len()
            invariant
                start <= i,
                self.rows().len() == old(self).rows().len(),
                self.name() == old(self).name(),
                self.dirty() == old(self).dirty(),
                self.profile() == old(self).profile(),
                forall|k: int|
                    0 <= k < self.rows().len() ==> (#[trigger] self.rows()[k])@ == old(
                        self,
                    ).rows()[k]@,
                forall|k: int| 0 <= k < self.rows().len() ==> (#[trigger] self.rows()[k]).wf(),
                forall|k: int|
                    0 <= k < self.rows().len() && (k < start || k >= i) ==> #[trigger] self.rows()[k]
                        == old(self).rows()[k],
                forall|k: int|
                    start <= k < i && k < self.rows().len() ==> !(
                    #[trigger] self.rows()[k]).highlighted(),
            decreases self.rows.len() - i,
        {
            self.rows[i].unhighlight();
            i += 1;
        }
        assert(self.lines() =~= old(self).lines());
    }

    /// Deletes at `at`.
    ///
    /// A row index at or past the number of rows is ignored: nothing
    /// changes. Otherwise the lines change as [`lines_after_delete`] says,
    /// the document is dirty, the rows before the one above `at.y` keep
    /// their state, and every row from there on is stale.
    pub fn delete(&mut self, at: &Position)
        requires
            old(self).wf(),
        ensures
            final(self).wf(),
            final(self).lines() == lines_after_delete(old(self).lines(), *at),
            final(self).name() == old(self).name(),
            final(self).profile() == old(self).profile(),
            at.y >= old(self).rows().len() ==> *final(self) == *old(self),
            at.y < old(self).rows().len() ==> {
                &&& final(self).dirty()
                &&& same_before(old(self).rows(), final(self).rows(), first_stale_row(at.y as int))
                &&& stale_from(final(self).rows(), first_stale_row(at.y as int))
            },
    {
        let len = self.rows.len();
        if at.y >= len {
            return ;
        }
        self.dirty = true;
        if at.x == self.rows[at.y].len() && at.y + 1 < len {
            let next_row = self.rows.remove(at.y + 1);
            self.rows[at.y].append(&next_row);
            assert(self.lines() =~= lines_after_delete(old(self).lines(), *at));
        } else {
            self.rows[at.y].delete(at.x);
            assert(self.lines() =~= lines_after_delete(old(self).lines(), *at));
        }
        self.unhighlight_rows(at.y);
        proof {
            lemma_fresh_prefix_kept(old(self).rows(), self.rows(), first_stale_row(at.y as int));
        }
    }

    /// Recomputes the classes of a prefix of the rows, in increasing order,
    /// and hands from each row to the next whether it ended inside a comment
    /// that it did not close.
    ///
    /// With the hint `until` the prefix ends with row `until`; the rows
    /// after it stay as they were, stale or not. `word` is the word that is
    /// searched: the characters of its occurrences get the class `Match`.
    pub fn highlight(&mut self, word: &Option<String>, until: Option<usize>)
        requires
            old(self).wf(),
        ensures
            final(self).wf(),
            final(self).name() == old(self).name(),
            final(self).dirty() == old(self).dirty(),
            final(self).profile() == old(self).profile(),
            is_highlight_result(
                old(self).rows(),
                final(self).rows(),
                old(self).profile().rules,
                word_of(*word),
                until,
            ),
    {
        let mut start_with_comment = false;
        let until: usize = if let Some(until) = until {
            if until.saturating_add(1) < self.rows.len() {
                until.saturating_add(1)
            } else {
                self.rows.len()
            }
        } else {
            self.rows.len()
        };
        let ghost rules = self.profile().rules;
        let ghost lines = self.lines();
        let mut i: usize = 0;
        while i < until
            invariant
                i <= until <= self.rows().len(),
                self.rows().len() == old(self).rows().len(),
                self.name() == old(self).name(),
                self.dirty() == old(self).dirty(),
                self.profile() == old(self).profile(),
                rules == old(self).profile().rules,
                lines == old(self).lines(),
                start_with_comment == starts_in_comment(lines, rules, i as int),
                forall|k: int|
                    0 <= k < self.rows().len() ==> (#[trigger] self.rows()[k])@ == old(
                        self,
                    ).rows()[k]@,
                forall|k: int| 0 <= k < self.rows().len() ==> (#[trigger] self.rows()[k]).wf(),
                forall|k: int|
                    0 <= k < i ==> (#[trigger] self.rows()[k]).highlighted() && self.rows()[k].spans()
                        == classes(
                        old(self).rows()[k]@,
                        rules,
                        word_of(*word),
                        starts_in_comment(lines, rules, k),
                    ),
                forall|k: int|
                    i <= k < self.rows().len() ==> #[trigger] self.rows()[k] == old(self).rows()[k],
            decreases until - i,
        {
            start_with_comment =
            self.rows[i].highlight(self.doc_type.highlightingoptions(), word, start_with_comment);
            i += 1;
        }
        proof {
            assert(self.lines() =~= old(self).lines());
            assert forall|a: int, b: int|
                0 <= a <= b < self.rows().len() && (#[trigger] self.rows()[b]).highlighted() implies (
            #[trigger] self.rows()[a]).highlighted() by {
                if a >= until {
                    assert(self.rows()[b] == old(self).rows()[b]);
                    assert(self.rows()[a] == old(self).rows()[a]);
                }
            }
        }
    }

    /// Searches the document for `query`, case-sensitively, from `at`.
    ///
    /// The search does not wrap around: forward it visits the row of `at`
    /// from column `at.x` on and then the rows after it, backward the rows
    /// before the row of `at` and then that row up to column `at.x`. See
    /// [`is_find_result`].
    pub fn find(&self, query: &str, at: &Position, direction: SearchDirection) -> (found: Option<
        Position,
    >)
        ensures
            is_find_result(self.lines(), query@, *at, direction, found),
    {
        if at.y >= self.rows.len() {
            return None;
        }
        let pattern = to_chars(query);
        let (start, end): (usize, usize) = match direction {
            SearchDirection::Forward => (at.y, self.rows.len()),
            SearchDirection::Backward => (0, at.y + 1),
        };
        let mut y: usize = start;
        while y < end
            invariant
                start <= y <= end <= self.rows@.len(),
                at.y < self.rows@.len(),
                pattern@ == query@,
                (start as int, end as int) == search_range(self.lines(), *at, direction),
                forall|r: int|
                    start <= r < y ==> is_answer_of_row(
                        self.lines(),
                        query@,
                        *at,
                        direction,
                        r,
                        None,
                    ),
            decreases end - y,
        {
            let anchor: usize = if y == at.y {
                at.x
            } else {
                match direction {
                    SearchDirection::Forward => 0,
                    SearchDirection::Backward => self.rows[y].len(),
                }
            };
            let hit = self.rows[y].find_chars(&pattern, anchor, direction);
            assert(is_answer_of_row(self.lines(), query@, *at, direction, y as int, column_of(hit)));
            if let Some(x) = hit {
                return Some(Position { x, y });
            }
            y += 1;
        }
        None
    }
}

impl Default for Doc {
    /// The empty document: no row, no name, not dirty, no file type.
    fn default() -> (doc: Doc)
        ensures
            doc.wf(),
            doc.rows().len() == 0,
            doc.name() is None,
            !doc.dirty(),
            doc.profile() == classify(Seq::<char>::empty()),
    {
        Doc { doc_name: None, dirty: false, rows: Vec::new(), doc_type: DocType::default() }
    }
}

} // verus!
