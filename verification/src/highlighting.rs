//! The classes that syntax highlighting assigns to the characters of a row.
use vstd::prelude::*;
use crate::doctype::HighlightingRules;
use crate::search::{first_occurrence, lemma_first_occurrence, occurs_at};

verus! {

/// The class of one character of a row.
#[derive(Clone, Copy, Debug, PartialEq, Eq, Structural)]
pub enum Highlight {
    /// Ordinary text.
    Plain,
    /// Part of a numeric literal.
    Number,
    /// Part of an occurrence of the word that is being searched for.
    Match,
    /// Part of a string literal.
    StringLiteral,
    /// Part of a character literal.
    CharLiteral,
    /// Part of a comment that ends with the line.
    Comment,
    /// Part of a comment that may run over several lines.
    MultilineComment,
    /// Part of a keyword of the first list.
    PrimaryKeyword,
    /// Part of a keyword of the second list.
    SecondaryKeyword,
}

/// The two characters that open a comment which may run over several lines.
pub open spec fn comment_open() -> Seq<char> {
    seq!['/', '*']
}

/// The two characters that close such a comment.
pub open spec fn comment_close() -> Seq<char> {
    seq!['*', '/']
}

/// The two characters that start a comment which ends with the line.
pub open spec fn line_comment() -> Seq<char> {
    seq!['/', '/']
}

/// An ASCII decimal digit.
pub open spec fn is_digit(c: char) -> bool {
    0x30 <= c as u32 <= 0x39
}

/// A character that may stand in a numeric literal after its first digit.
pub open spec fn is_number_part(c: char) -> bool {
    is_digit(c) || c == '.'
}

/// A character that ends a word: ASCII white space, or ASCII punctuation
/// other than the underscore.
pub open spec fn is_separator(c: char) -> bool {
    let u = c as u32;
    ||| u == 0x20
    ||| 0x09 <= u <= 0x0D && u != 0x0B
    ||| 0x21 <= u <= 0x2F
    ||| 0x3A <= u <= 0x40
    ||| 0x5B <= u <= 0x60 && u != 0x5F
    ||| 0x7B <= u <= 0x7E
}

/// Column `i` starts a word: it is the first column, or the character
/// before it is a separator.
pub open spec fn at_word_start(text: Seq<char>, i: int) -> bool {
    i == 0 || (0 < i <= text.len() && is_separator(text[i - 1]))
}

/// The column after a string literal whose opening quote stands before
/// column `j`: the column after the first double quote from `j` on that no
/// backslash escapes, and the end of the line where there is none.
pub open spec fn string_end(text: Seq<char>, j: int) -> int
    decreases text.len() - j,
{
    if j < 0 || j >= text.len() {
        text.len() as int
    } else if text[j] == '"' {
        j + 1
    } else if text[j] == '\\' && j + 1 < text.len() {
        string_end(text, j + 2)
    } else {
        string_end(text, j + 1)
    }
}

/// The column after the digits and points that run from column `j` on.
pub open spec fn number_end(text: Seq<char>, j: int) -> int
    decreases text.len() - j,
{
    if 0 <= j < text.len() && is_number_part(text[j]) {
        number_end(text, j + 1)
    } else {
        j
    }
}

/// The length of the character literal that starts at column `i`, and 0
/// where none starts there. A literal is a single quote, one character that
/// is neither a quote nor a backslash, and a single quote; or a single
/// quote, a backslash, any one character, and a single quote.
pub open spec fn char_literal_len(text: Seq<char>, i: int) -> int {
    if 0 <= i && i + 2 < text.len() && text[i] == '\'' && text[i + 1] != '\\' && text[i + 1]
        != '\'' && text[i + 2] == '\'' {
        3
    } else if 0 <= i && i + 3 < text.len() && text[i] == '\'' && text[i + 1] == '\\' && text[i
        + 3] == '\'' {
        4
    } else {
        0
    }
}

/// `word` stands at column `i` as a whole word: it is not empty, it occurs
/// there, and the line ends after it or a separator follows.
pub open spec fn is_keyword_at(text: Seq<char>, word: Seq<char>, i: int) -> bool {
    &&& word.len() > 0
    &&& occurs_at(text, word, i)
    &&& (i + word.len() == text.len() || is_separator(text[i + word.len()]))
}

/// The length of the first word of `words`, from index `k` on, that stands
/// at column `i` as a whole word.
pub open spec fn keyword_at(text: Seq<char>, words: Seq<Seq<char>>, i: int, k: int) -> Option<int>
    decreases words.len() - k,
{
    if k < 0 || k >= words.len() {
        None
    } else if is_keyword_at(text, words[k], i) {
        Some(words[k].len() as int)
    } else {
        keyword_at(text, words, i, k + 1)
    }
}

/// A run of characters of one class.
pub ghost struct Token {
    /// The class of every character of the run.
    pub class: Highlight,
    /// The column after the run.
    pub end: int,
    /// The run is a comment that the line does not close.
    pub open: bool,
}

/// The run that starts at column `i` of `text`, outside any comment.
///
/// The first of these that applies decides: a comment over several lines,
/// up to and with its closing mark, or to the end of the line where it is
/// not closed; a comment to the end of the line; a string literal; a
/// character literal; at the start of a word, a number, then a keyword of
/// the first list, then one of the second. Any other character is a run of
/// plain text by itself.
pub open spec fn token_at(text: Seq<char>, rules: HighlightingRules, i: int) -> Token {
    if rules.multiline_comments && occurs_at(text, comment_open(), i) {
        match first_occurrence(text, comment_close(), i + 2) {
            Some(c) => Token { class: Highlight::MultilineComment, end: c + 2, open: false },
            None => Token {
                class: Highlight::MultilineComment,
                end: text.len() as int,
                open: true,
            },
        }
    } else if rules.comments && occurs_at(text, line_comment(), i) {
        Token { class: Highlight::Comment, end: text.len() as int, open: false }
    } else if rules.strings && text[i] == '"' {
        Token { class: Highlight::StringLiteral, end: string_end(text, i + 1), open: false }
    } else if rules.characters && char_literal_len(text, i) > 0 {
        Token { class: Highlight::CharLiteral, end: i + char_literal_len(text, i), open: false }
    } else if at_word_start(text, i) && rules.numbers && is_digit(text[i]) {
        Token { class: Highlight::Number, end: number_end(text, i + 1), open: false }
    } else if at_word_start(text, i) && keyword_at(text, rules.primary_keywords, i, 0) is Some {
        Token {
            class: Highlight::PrimaryKeyword,
            end: i + keyword_at(text, rules.primary_keywords, i, 0)->0,
            open: false,
        }
    } else if at_word_start(text, i) && keyword_at(text, rules.secondary_keywords, i, 0) is Some {
        Token {
            class: Highlight::SecondaryKeyword,
            end: i + keyword_at(text, rules.secondary_keywords, i, 0)->0,
            open: false,
        }
    } else {
        Token { class: Highlight::Plain, end: i + 1, open: false }
    }
}

/// The end of a string literal lies between the column after its opening
/// quote and the end of the line.
pub proof fn lemma_string_end_bounds(text: Seq<char>, j: int)
    requires
        0 <= j <= text.len(),
    ensures
        j <= string_end(text, j) <= text.len(),
    decreases text.len() - j,
{
    if j < text.len() && text[j] != '"' {
        if text[j] == '\\' && j + 1 < text.len() {
            lemma_string_end_bounds(text, j + 2);
        } else {
            lemma_string_end_bounds(text, j + 1);
        }
    }
}

/// The end of a number lies between its start and the end of the line.
pub proof fn lemma_number_end_bounds(text: Seq<char>, j: int)
    requires
        0 <= j <= text.len(),
    ensures
        j <= number_end(text, j) <= text.len(),
    decreases text.len() - j,
{
    if j < text.len() && is_number_part(text[j]) {
        lemma_number_end_bounds(text, j + 1);
    }
}

/// A keyword that stands at a column is not empty and fits in the line.
pub proof fn lemma_keyword_at_bounds(text: Seq<char>, words: Seq<Seq<char>>, i: int, k: int)
    requires
        0 <= k,
    ensures
        keyword_at(text, words, i, k) is Some ==> 0 < keyword_at(text, words, i, k)->0 && i
            + keyword_at(text, words, i, k)->0 <= text.len(),
    decreases words.len() - k,
{
    if k < words.len() && !is_keyword_at(text, words[k], i) {
        lemma_keyword_at_bounds(text, words, i, k + 1);
    }
}

/// Every run holds at least one character and ends within the line. A run
/// that is left open ends with the line.
pub proof fn lemma_token_bounds(text: Seq<char>, rules: HighlightingRules, i: int)
    requires
        0 <= i < text.len(),
    ensures
        i < token_at(text, rules, i).end <= text.len(),
        token_at(text, rules, i).open ==> token_at(text, rules, i).end == text.len(),
{
    lemma_first_occurrence(text, comment_close(), i + 2);
    lemma_string_end_bounds(text, i + 1);
    lemma_number_end_bounds(text, i + 1);
    lemma_keyword_at_bounds(text, rules.primary_keywords, i, 0);
    lemma_keyword_at_bounds(text, rules.secondary_keywords, i, 0);
}

/// The classes of the columns from `i` on, and whether the line ends inside
/// a comment that it does not close, for a line whose column `i` lies
/// outside any comment.
pub open spec fn lex_from(text: Seq<char>, rules: HighlightingRules, i: int) -> (Seq<Highlight>, bool)
    decreases text.len() - i,
{
    if i < 0 || i >= text.len() {
        (Seq::empty(), false)
    } else {
        let t = token_at(text, rules, i);
        proof {
            lemma_token_bounds(text, rules, i);
        }
        let rest = lex_from(text, rules, t.end);
        (Seq::new((t.end - i) as nat, |k: int| t.class) + rest.0, t.open || rest.1)
    }
}

/// The classes of a whole line by its lexical rules, and whether the line
/// ends inside a comment that it does not close.
///
/// `started_in_comment` says that the line before ended inside such a
/// comment; it counts only where the rules know comments over several
/// lines. The line then is comment up to and with the first closing mark,
/// and wholly where it has none.
pub open spec fn lex_row(text: Seq<char>, rules: HighlightingRules, started_in_comment: bool) -> (
    Seq<Highlight>,
    bool,
) {
    if started_in_comment && rules.multiline_comments {
        match first_occurrence(text, comment_close(), 0) {
            Some(c) => {
                let rest = lex_from(text, rules, c + 2);
                (
                    Seq::new((c + 2) as nat, |k: int| Highlight::MultilineComment) + rest.0,
                    rest.1,
                )
            },
            None => (Seq::new(text.len(), |k: int| Highlight::MultilineComment), true),
        }
    } else {
        lex_from(text, rules, 0)
    }
}

/// Column `k` lies inside an occurrence of `word`.
pub open spec fn in_occurrence(text: Seq<char>, word: Seq<char>, k: int) -> bool {
    exists|j: int| k - word.len() < j <= k && #[trigger] occurs_at(text, word, j)
}

/// The classes of a line: those that its lexical rules give, but `Match`
/// for every character inside an occurrence of the word that is searched.
pub open spec fn classes(
    text: Seq<char>,
    rules: HighlightingRules,
    word: Option<Seq<char>>,
    started_in_comment: bool,
) -> Seq<Highlight> {
    let base = lex_row(text, rules, started_in_comment).0;
    match word {
        Some(w) => Seq::new(
            text.len(),
            |k: int|
                if in_occurrence(text, w, k) {
                    Highlight::Match
                } else {
                    base[k]
                },
        ),
        None => base,
    }
}

/// Whether a line ends inside a comment that it does not close.
pub open spec fn ends_in_comment(
    text: Seq<char>,
    rules: HighlightingRules,
    started_in_comment: bool,
) -> bool {
    lex_row(text, rules, started_in_comment).1
}

/// The lexical rules give every column from `i` on one class.
pub proof fn lemma_lex_from_len(text: Seq<char>, rules: HighlightingRules, i: int)
    requires
        0 <= i <= text.len(),
    ensures
        lex_from(text, rules, i).0.len() == text.len() - i,
    decreases text.len() - i,
{
    if i < text.len() {
        lemma_token_bounds(text, rules, i);
        lemma_lex_from_len(text, rules, token_at(text, rules, i).end);
    }
}

/// Every character of a line has one class.
pub proof fn lemma_classes_len(
    text: Seq<char>,
    rules: HighlightingRules,
    word: Option<Seq<char>>,
    started_in_comment: bool,
)
    ensures
        classes(text, rules, word, started_in_comment).len() == text.len(),
{
    if started_in_comment && rules.multiline_comments {
        lemma_first_occurrence(text, comment_close(), 0);
        if let Some(c) = first_occurrence(text, comment_close(), 0) {
            lemma_lex_from_len(text, rules, c + 2);
        }
    } else {
        lemma_lex_from_len(text, rules, 0);
    }
}

} // verus!
