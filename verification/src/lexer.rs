//! The scanner that computes the classes of a line.
use vstd::prelude::*;
use crate::doctype::{words_of, HighlightingOptions};
use crate::highlighting::{
    at_word_start, char_literal_len, comment_close, in_occurrence, is_digit, is_number_part,
    is_separator, keyword_at, lemma_lex_from_len, lemma_token_bounds, lex_from, lex_row,
    number_end, string_end, token_at, Highlight,
};
use crate::search::{
    column_of, find_forward, lemma_first_occurrence, occurs_at, occurs_at_column,
};

verus! {

/// Whether `c` is an ASCII decimal digit.
fn is_digit_char(c: char) -> (b: bool)
    ensures
        b == is_digit(c),
{
    let u: u32 = c as u32;
    0x30 <= u && u <= 0x39
}

/// Whether `c` may stand in a numeric literal after its first digit.
fn is_number_part_char(c: char) -> (b: bool)
    ensures
        b == is_number_part(c),
{
    is_digit_char(c) || c == '.'
}

/// Whether `c` ends a word.
fn is_separator_char(c: char) -> (b: bool)
    ensures
        b == is_separator(c),
{
    let u: u32 = c as u32;
    u == 0x20 || (0x09 <= u && u <= 0x0D && u != 0x0B) || (0x21 <= u && u <= 0x2F) || (0x3A <= u
        && u <= 0x40) || (0x5B <= u && u <= 0x60 && u != 0x5F) || (0x7B <= u && u <= 0x7E)
}

/// Whether the characters `a` and `b` stand at columns `i` and `i + 1`.
fn pair_at(text: &Vec<char>, i: usize, a: char, b: char) -> (hit: bool)
    ensures
        hit == occurs_at(text@, seq![a, b], i as int),
        hit ==> i + 2 <= text@.len(),
{
    if text.len() >= 2 && i <= text.len() - 2 {
        let hit = text[i] == a && text[i + 1] == b;
        proof {
            let pair = seq![a, b];
            if hit {
                assert forall|k: int| 0 <= k < pair.len() implies text@[i + k] == #[trigger] pair[k] by {
                    if k == 0 {
                    } else {
                        assert(k == 1);
                    }
                }
            } else {
                if text@[i as int] != a {
                    assert(pair[0] == a);
                } else {
                    assert(pair[1] == b);
                }
            }
        }
        hit
    } else {
        false
    }
}

/// Whether column `i` starts a word.
fn starts_word(text: &Vec<char>, i: usize) -> (b: bool)
    requires
        i <= text@.len(),
    ensures
        b == at_word_start(text@, i as int),
{
    i == 0 || is_separator_char(text[i - 1])
}

/// The column after the string literal whose opening quote stands before
/// column `from`.
fn scan_string(text: &Vec<char>, from: usize) -> (end: usize)
    requires
        from <= text@.len(),
    ensures
        end == string_end(text@, from as int),
        from <= end <= text@.len(),
{
    let len = text.len();
    let mut j: usize = from;
    while j < len
        invariant
            len == text@.len(),
            from <= j <= len,
            string_end(text@, from as int) == string_end(text@, j as int),
        decreases len - j,
    {
        let c = text[j];
        if c == '"' {
            return j + 1;
        }
        if c == '\\' && j + 1 < len {
            j += 2;
        } else {
            j += 1;
        }
    }
    len
}

/// The column after the digits and points that run from column `from` on.
fn scan_number(text: &Vec<char>, from: usize) -> (end: usize)
    requires
        from <= text@.len(),
    ensures
        end == number_end(text@, from as int),
        from <= end <= text@.len(),
{
    let len = text.len();
    let mut j: usize = from;
    while j < len && is_number_part_char(text[j])
        invariant
            len == text@.len(),
            from <= j <= len,
            number_end(text@, from as int) == number_end(text@, j as int),
        decreases len - j,
    {
        j += 1;
    }
    j
}

/// The length of the character literal that starts at column `i`, or 0.
fn scan_char_literal(text: &Vec<char>, i: usize) -> (n: usize)
    requires
        i < text@.len(),
    ensures
        n == char_literal_len(text@, i as int),
{
    let len = text.len();
    if text[i] != '\'' {
        return 0;
    }
    if len - i > 2 && text[i + 1] != '\\' && text[i + 1] != '\'' && text[i + 2] == '\'' {
        3
    } else if len - i > 3 && text[i + 1] == '\\' && text[i + 3] == '\'' {
        4
    } else {
        0
    }
}

/// The length of the first word of `words` that stands at column `i` as a
/// whole word.
fn scan_keyword(text: &Vec<char>, words: &Vec<Vec<char>>, i: usize) -> (found: Option<usize>)
    ensures
        column_of(found) == keyword_at(text@, words_of(*words), i as int, 0),
{
    let mut k: usize = 0;
    while k < words.len()
        invariant
            k <= words.len(),
            keyword_at(text@, words_of(*words), i as int, 0) == keyword_at(
                text@,
                words_of(*words),
                i as int,
                k as int,
            ),
        decreases words.len() - k,
    {
        let word = &words[k];
        assert(words_of(*words)[k as int] == word@);
        if word.len() > 0 && word.len() <= text.len() && i <= text.len() - word.len() {
            if occurs_at_column(text, word, i) {
                let end: usize = i + word.len();
                if end == text.len() || is_separator_char(text[end]) {
                    return Some(word.len());
                }
            }
        }
        k += 1;
    }
    None
}

/// The run that starts at column `i`: its class, the column after it, and
/// whether it is a comment that the line does not close.
fn next_token(text: &Vec<char>, options: &HighlightingOptions, close: &Vec<char>, i: usize) -> (t: (
    Highlight,
    usize,
    bool,
))
    requires
        i < text@.len(),
        close@ == comment_close(),
    ensures
        t.0 == token_at(text@, options@, i as int).class,
        t.1 == token_at(text@, options@, i as int).end,
        t.2 == token_at(text@, options@, i as int).open,
        i < t.1 <= text@.len(),
        t.2 ==> t.1 == text@.len(),
{
    let len = text.len();
    proof {
        lemma_token_bounds(text@, options@, i as int);
        lemma_first_occurrence(text@, comment_close(), i + 2);
    }
    if options.multiline_comments && pair_at(text, i, '/', '*') {
        return match find_forward(text, close, i + 2) {
            Some(c) => (Highlight::MultilineComment, c + 2, false),
            None => (Highlight::MultilineComment, len, true),
        };
    }
    if options.comments && pair_at(text, i, '/', '/') {
        return (Highlight::Comment, len, false);
    }
    if options.strings && text[i] == '"' {
        return (Highlight::StringLiteral, scan_string(text, i + 1), false);
    }
    if options.characters {
        let n = scan_char_literal(text, i);
        if n > 0 {
            return (Highlight::CharLiteral, i + n, false);
        }
    }
    if starts_word(text, i) {
        if options.numbers && is_digit_char(text[i]) {
            return (Highlight::Number, scan_number(text, i + 1), false);
        }
        if let Some(n) = scan_keyword(text, &options.primary_keywords, i) {
            return (Highlight::PrimaryKeyword, i + n, false);
        }
        if let Some(n) = scan_keyword(text, &options.secondary_keywords, i) {
            return (Highlight::SecondaryKeyword, i + n, false);
        }
    }
    (Highlight::Plain, i + 1, false)
}

/// Appends `n` times the class `class`.
fn fill(spans: &mut Vec<Highlight>, class: Highlight, n: usize)
    ensures
        final(spans)@ == old(spans)@ + Seq::new(n as nat, |k: int| class),
{
    let mut k: usize = 0;
    while k < n
        invariant
            k <= n,
            spans@ == old(spans)@ + Seq::new(k as nat, |m: int| class),
        decreases n - k,
    {
        spans.push(class);
        k += 1;
    }
}

/// The classes that the lexical rules give a line, and whether the line
/// ends inside a comment that it does not close.
pub fn lex(text: &Vec<char>, options: &HighlightingOptions, started_in_comment: bool) -> (out: (
    Vec<Highlight>,
    bool,
))
    ensures
        out.0@ == lex_row(text@, options@, started_in_comment).0,
        out.1 == lex_row(text@, options@, started_in_comment).1,
        out.0@.len() == text@.len(),
{
    let close: Vec<char> = vec!['*', '/'];
    assert(close@ =~= comment_close());
    let len = text.len();
    let mut spans: Vec<Highlight> = Vec::new();
    let mut i: usize = 0;
    if started_in_comment && options.multiline_comments {
        proof {
            lemma_first_occurrence(text@, comment_close(), 0);
        }
        match find_forward(text, &close, 0) {
            Some(c) => {
                fill(&mut spans, Highlight::MultilineComment, c + 2);
                i = c + 2;
            },
            None => {
                fill(&mut spans, Highlight::MultilineComment, len);
                assert(spans@ =~= lex_row(text@, options@, started_in_comment).0);
                return (spans, true);
            },
        }
    }
    let ghost start = i as int;
    let ghost head = spans@;
    assert(head + lex_from(text@, options@, start).0 =~= lex_row(
        text@,
        options@,
        started_in_comment,
    ).0);
    proof {
        lemma_lex_from_len(text@, options@, start);
    }
    while i < len
        invariant
            len == text@.len(),
            close@ == comment_close(),
            0 <= start <= i <= len,
            spans@.len() == i,
            spans@ + lex_from(text@, options@, i as int).0 == head + lex_from(
                text@,
                options@,
                start,
            ).0,
            lex_from(text@, options@, i as int).1 == lex_from(text@, options@, start).1,
            head + lex_from(text@, options@, start).0 == lex_row(
                text@,
                options@,
                started_in_comment,
            ).0,
            lex_from(text@, options@, start).1 == lex_row(text@, options@, started_in_comment).1,
        decreases len - i,
    {
        let ghost before = spans@;
        let t = next_token(text, options, &close, i);
        fill(&mut spans, t.0, t.1 - i);
        proof {
            let rest = lex_from(text@, options@, t.1 as int);
            assert(lex_from(text@, options@, i as int).0 == Seq::new(
                (t.1 - i) as nat,
                |k: int| t.0,
            ) + rest.0);
            assert(spans@ + rest.0 =~= before + lex_from(text@, options@, i as int).0);
        }
        if t.2 {
            assert(spans@ =~= spans@ + lex_from(text@, options@, t.1 as int).0);
            return (spans, true);
        }
        i = t.1;
    }
    assert(spans@ =~= spans@ + lex_from(text@, options@, i as int).0);
    (spans, false)
}

/// Some occurrence of `word` that starts before column `limit` covers
/// column `k`.
spec fn in_occurrence_before(text: Seq<char>, word: Seq<char>, k: int, limit: int) -> bool {
    exists|j: int| k - word.len() < j <= k && j < limit && #[trigger] occurs_at(text, word, j)
}

/// Gives the class `Match` to every character inside an occurrence of
/// `word`.
pub fn mark_occurrences(spans: &mut Vec<Highlight>, text: &Vec<char>, word: &Vec<char>)
    requires
        old(spans)@.len() == text@.len(),
    ensures
        final(spans)@ == Seq::new(
            text@.len(),
            |k: int|
                if in_occurrence(text@, word@, k) {
                    Highlight::Match
                } else {
                    old(spans)@[k]
                },
        ),
{
    let len = text.len();
    let width = word.len();
    if width == 0 || width > len {
        assert forall|k: int| 0 <= k < len implies !in_occurrence(text@, word@, k) by {
            if in_occurrence(text@, word@, k) {
                let j = choose|j: int| k - word@.len() < j <= k && #[trigger] occurs_at(text@, word@, j);
                assert(false);
            }
        }
        assert(spans@ =~= Seq::new(
            text@.len(),
            |k: int|
                if in_occurrence(text@, word@, k) {
                    Highlight::Match
                } else {
                    old(spans)@[k]
                },
        ));
        return ;
    }
    let last: usize = len - width;
    let mut j: usize = 0;
    while j <= last
        invariant
            len == text@.len(),
            width == word@.len(),
            0 < width <= len,
            last == len - width,
            j <= last + 1,
            spans@.len() == len,
            forall|k: int|
                0 <= k < len ==> #[trigger] spans@[k] == if in_occurrence_before(
                    text@,
                    word@,
                    k,
                    j as int,
                ) {
                    Highlight::Match
                } else {
                    old(spans)@[k]
                },
        decreases last + 1 - j,
    {
        let ghost entry = spans@;
        if occurs_at_column(text, word, j) {
            let mut k: usize = j;
            while k < j + width
                invariant
                    len == text@.len(),
                    width == word@.len(),
                    j + width <= len,
                    j <= k <= j + width,
                    spans@.len() == len,
                    forall|m: int|
                        0 <= m < len ==> #[trigger] spans@[m] == if j <= m < k {
                            Highlight::Match
                        } else {
                            entry[m]
                        },
                decreases j + width - k,
            {
                spans.set(k, Highlight::Match);
                k += 1;
            }
        }
        proof {
            assert forall|k: int| 0 <= k < len implies #[trigger] spans@[k] == if in_occurrence_before(
                text@,
                word@,
                k,
                j + 1,
            ) {
                Highlight::Match
            } else {
                old(spans)@[k]
            } by {
                let hit = occurs_at(text@, word@, j as int);
                let here = hit && j <= k < j + width;
                if in_occurrence_before(text@, word@, k, j as int) {
                    let s = choose|s: int|
                        k - word@.len() < s <= k && s < j && #[trigger] occurs_at(text@, word@, s);
                    assert(k - word@.len() < s <= k && s < j + 1 && occurs_at(text@, word@, s));
                } else if here {
                    assert(k - word@.len() < j <= k && j < j + 1 && occurs_at(text@, word@, j as int));
                } else if in_occurrence_before(text@, word@, k, j + 1) {
                    let s = choose|s: int|
                        k - word@.len() < s <= k && s < j + 1 && #[trigger] occurs_at(
                            text@,
                            word@,
                            s,
                        );
                    if s < j {
                        assert(in_occurrence_before(text@, word@, k, j as int));
                    }
                    assert(false);
                }
            }
        }
        j += 1;
    }
    proof {
        assert forall|k: int| 0 <= k < len implies in_occurrence(text@, word@, k)
            == in_occurrence_before(text@, word@, k, j as int) by {
            if in_occurrence(text@, word@, k) {
                let s = choose|s: int| k - word@.len() < s <= k && #[trigger] occurs_at(text@, word@, s);
                assert(s < j);
                assert(k - word@.len() < s <= k && s < j && occurs_at(text@, word@, s));
            }
            if in_occurrence_before(text@, word@, k, j as int) {
                let s = choose|s: int|
                    k - word@.len() < s <= k && s < j && #[trigger] occurs_at(text@, word@, s);
                assert(k - word@.len() < s <= k && occurs_at(text@, word@, s));
            }
        }
        assert(spans@ =~= Seq::new(
            text@.len(),
            |k: int|
                if in_occurrence(text@, word@, k) {
                    Highlight::Match
                } else {
                    old(spans)@[k]
                },
        ));
    }
}

} // verus!
