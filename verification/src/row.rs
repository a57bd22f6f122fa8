//! One line of a document: its characters and the state of its highlighting.
use vstd::prelude::*;
use vstd::utf8::encode_utf8;
use crate::doctype::HighlightingOptions;
use crate::highlighting::{classes, ends_in_comment, lemma_classes_len, Highlight};
use crate::lexer::{lex, mark_occurrences};
use crate::position::SearchDirection;
use crate::text::extend_utf8;
use crate::search::{
    column_of, find_backward, find_forward, is_first_occurrence, is_last_occurrence, to_chars,
};

verus! {

/// One line of text, without its line terminator.
///
/// The view of a row is its content as a sequence of Unicode scalar values.
/// Besides the content a row keeps one class per character, and a flag that
/// says whether those classes were computed from the present content.
#[derive(Debug)]
pub struct Row {
    content: Vec<char>,
    highlighting: Vec<Highlight>,
    is_highlighted: bool,
}

impl View for Row {
    type V = Seq<char>;

    closed spec fn view(&self) -> Seq<char> {
        self.content@
    }
}

/// The column at which an edit at column `at` takes place in a line of
/// `len` characters: columns past the end stand for the end.
pub open spec fn clamp_column(at: int, len: int) -> int {
    if at < len {
        at
    } else {
        len
    }
}

/// What a search inside one line answers, by direction. Forward, `at` is the
/// first column that may start an occurrence. Backward, `at` is the column
/// at or before which an occurrence must end.
pub open spec fn is_row_find_result(
    text: Seq<char>,
    pattern: Seq<char>,
    at: int,
    direction: SearchDirection,
    found: Option<int>,
) -> bool {
    match direction {
        SearchDirection::Forward => is_first_occurrence(text, pattern, at, found),
        SearchDirection::Backward => is_last_occurrence(text, pattern, at, found),
    }
}

/// The characters of the word that is searched, if there is one.
pub open spec fn word_of(word: Option<String>) -> Option<Seq<char>> {
    match word {
        Some(w) => Some(w@),
        None => None,
    }
}

impl Row {
    /// Whether the classes of this row were computed from its present
    /// content. A row that is not highlighted is stale.
    pub closed spec fn highlighted(&self) -> bool {
        self.is_highlighted
    }

    /// The class of each character, as last computed.
    pub closed spec fn spans(&self) -> Seq<Highlight> {
        self.highlighting@
    }

    /// A highlighted row has exactly one class per character.
    pub open spec fn wf(&self) -> bool {
        self.highlighted() ==> self.spans().len() == self@.len()
    }

    /// The row that holds the characters of `line`, not yet highlighted.
    pub fn from(line: &str) -> (row: Row)
        ensures
            row@ == line@,
            !row.highlighted(),
            row.wf(),
    {
        Row { content: to_chars(line), highlighting: Vec::new(), is_highlighted: false }
    }

    /// The row that holds `content`, not yet highlighted.
    pub fn from_chars(content: Vec<char>) -> (row: Row)
        ensures
            row@ == content@,
            !row.highlighted(),
            row.wf(),
    {
        Row { content, highlighting: Vec::new(), is_highlighted: false }
    }

    /// The number of characters in the row.
    pub fn len(&self) -> (n: usize)
        ensures
            n == self@.len(),
    {
        self.content.len()
    }

    /// Whether the row holds no character.
    pub fn is_empty(&self) -> (b: bool)
        ensures
            b == (self@.len() == 0),
    {
        self.content.len() == 0
    }

    /// The characters of the row.
    pub fn content(&self) -> (chars: &Vec<char>)
        ensures
            chars@ == self@,
    {
        &self.content
    }

    /// Whether the classes of the row are up to date.
    pub fn is_highlighted(&self) -> (b: bool)
        ensures
            b == self.highlighted(),
    {
        self.is_highlighted
    }

    /// The class of each character, as last computed.
    pub fn highlighting(&self) -> (spans: &Vec<Highlight>)
        ensures
            spans@ == self.spans(),
    {
        &self.highlighting
    }

    /// Marks the classes of the row as stale. The content stays.
    pub fn unhighlight(&mut self)
        ensures
            final(self)@ == old(self)@,
            !final(self).highlighted(),
            final(self).wf(),
    {
        self.is_highlighted = false;
    }

    /// Inserts `c` before column `at`; a column past the end appends.
    pub fn insert(&mut self, at: usize, c: char)
        ensures
            final(self)@ == old(self)@.insert(clamp_column(at as int, old(self)@.len() as int), c),
            !final(self).highlighted(),
            final(self).wf(),
    {
        if at >= self.content.len() {
            self.content.push(c);
            assert(self.content@ == old(self).content@.insert(old(self).content@.len() as int, c));
        } else {
            self.content.insert(at, c);
        }
        self.is_highlighted = false;
    }

    /// Removes the character at column `at`. Where the row has no such
    /// column, nothing changes.
    pub fn delete(&mut self, at: usize)
        ensures
            at < old(self)@.len() ==> final(self)@ == old(self)@.remove(at as int)
                && !final(self).highlighted(),
            at >= old(self)@.len() ==> *final(self) == *old(self),
            old(self).wf() ==> final(self).wf(),
    {
        if at < self.content.len() {
            self.content.remove(at);
            self.is_highlighted = false;
        }
    }

    /// Cuts the row before column `at`: the row keeps the columns before it,
    /// and the rest is returned as a row of its own. A column past the end
    /// cuts at the end. Both rows are stale afterwards.
    pub fn split(&mut self, at: usize) -> (rest: Row)
        ensures
            final(self)@ == old(self)@.take(clamp_column(at as int, old(self)@.len() as int)),
            rest@ == old(self)@.skip(clamp_column(at as int, old(self)@.len() as int)),
            !final(self).highlighted(),
            !rest.highlighted(),
            final(self).wf(),
            rest.wf(),
    {
        let cut: usize = if at < self.content.len() { at } else { self.content.len() };
        let tail = self.content.split_off(cut);
        self.is_highlighted = false;
        Row { content: tail, highlighting: Vec::new(), is_highlighted: false }
    }

    /// Appends the characters of `other` to the end of the row.
    pub fn append(&mut self, other: &Row)
        ensures
            final(self)@ == old(self)@ + other@,
            !final(self).highlighted(),
            final(self).wf(),
    {
        let mut k: usize = 0;
        while k < other.content.len()
            invariant
                k <= other.content.len(),
                self.content@ == old(self).content@ + other.content@.take(k as int),
            decreases other.content.len() - k,
        {
            self.content.push(other.content[k]);
            k += 1;
        }
        self.is_highlighted = false;
    }

    /// The UTF-8 encoding of the row, without a line terminator.
    pub fn as_bytes(&self) -> (bytes: Vec<u8>)
        ensures
            bytes@ == encode_utf8(self@),
    {
        let mut bytes: Vec<u8> = Vec::new();
        extend_utf8(&mut bytes, &self.content);
        assert(bytes@ =~= encode_utf8(self@));
        bytes
    }

    /// Searches the row for `pattern`, given as characters.
    pub fn find_chars(&self, pattern: &Vec<char>, at: usize, direction: SearchDirection) -> (found:
        Option<usize>)
        ensures
            is_row_find_result(self@, pattern@, at as int, direction, column_of(found)),
    {
        match direction {
            SearchDirection::Forward => find_forward(&self.content, pattern, at),
            SearchDirection::Backward => find_backward(&self.content, pattern, at),
        }
    }

    /// Searches the row for `query`, case-sensitively. Forward, the answer is
    /// the lowest column at or after `at` where `query` occurs. Backward, it
    /// is the highest column of an occurrence that ends at or before `at`.
    pub fn find(&self, query: &str, at: usize, direction: SearchDirection) -> (found: Option<usize>)
        ensures
            is_row_find_result(self@, query@, at as int, direction, column_of(found)),
    {
        let pattern = to_chars(query);
        self.find_chars(&pattern, at, direction)
    }

    /// Computes the classes of the row.
    ///
    /// `start_with_comment` says that the row before ended inside a comment
    /// that it did not close. The result says the same of this row. The
    /// content stays; the classes are those of [`classes`], with `Match` for
    /// the characters inside an occurrence of `word`; the row is highlighted
    /// afterwards.
    pub fn highlight(
        &mut self,
        opts: &HighlightingOptions,
        word: &Option<String>,
        start_with_comment: bool,
    ) -> (ends_with_comment: bool)
        ensures
            final(self)@ == old(self)@,
            final(self).highlighted(),
            final(self).spans() == classes(old(self)@, opts@, word_of(*word), start_with_comment),
            ends_with_comment == ends_in_comment(old(self)@, opts@, start_with_comment),
            final(self).wf(),
    {
        let (mut spans, open) = lex(&self.content, opts, start_with_comment);
        if let Some(w) = word {
            let pattern = to_chars(w.as_str());
            mark_occurrences(&mut spans, &self.content, &pattern);
        }
        proof {
            lemma_classes_len(self@, opts@, word_of(*word), start_with_comment);
        }
        self.highlighting = spans;
        self.is_highlighted = true;
        open
    }
}

impl Default for Row {
    /// The empty row.
    fn default() -> (row: Row)
        ensures
            row@ == Seq::<char>::empty(),
            !row.highlighted(),
            row.wf(),
    {
        Row { content: Vec::new(), highlighting: Vec::new(), is_highlighted: false }
    }
}

} // verus!
