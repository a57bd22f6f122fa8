//! Substring search inside one line of text.
//!
//! A line is a sequence of Unicode scalar values; every index and length in
//! this module counts characters, never bytes.
use vstd::prelude::*;

verus! {

/// `pattern` occurs in `text` starting at column `at`.
pub open spec fn occurs_at(text: Seq<char>, pattern: Seq<char>, at: int) -> bool {
    &&& 0 <= at
    &&& at + pattern.len() <= text.len()
    &&& forall|k: int| 0 <= k < pattern.len() ==> text[at + k] == #[trigger] pattern[k]
}

/// The lowest column at or after `from` at which `pattern` occurs in `text`.
pub open spec fn first_occurrence(text: Seq<char>, pattern: Seq<char>, from: int) -> Option<int>
    decreases text.len() - from,
{
    if from < 0 || from + pattern.len() > text.len() {
        None
    } else if occurs_at(text, pattern, from) {
        Some(from)
    } else {
        first_occurrence(text, pattern, from + 1)
    }
}

/// `found` is the answer of a forward search: the lowest column at or after
/// `from` at which `pattern` occurs, and `None` exactly when there is none.
pub open spec fn is_first_occurrence(
    text: Seq<char>,
    pattern: Seq<char>,
    from: int,
    found: Option<int>,
) -> bool {
    match found {
        Some(c) => {
            &&& from <= c
            &&& occurs_at(text, pattern, c)
            &&& forall|j: int| from <= j < c ==> !occurs_at(text, pattern, j)
        },
        None => forall|j: int| from <= j ==> !occurs_at(text, pattern, j),
    }
}

/// `found` is the answer of a backward search: the highest column at which
/// `pattern` occurs and ends at or before column `bound`, and `None` exactly
/// when no occurrence ends there.
pub open spec fn is_last_occurrence(
    text: Seq<char>,
    pattern: Seq<char>,
    bound: int,
    found: Option<int>,
) -> bool {
    match found {
        Some(c) => {
            &&& c + pattern.len() <= bound
            &&& occurs_at(text, pattern, c)
            &&& forall|j: int| c < j && j + pattern.len() <= bound ==> !occurs_at(text, pattern, j)
        },
        None => forall|j: int| j + pattern.len() <= bound ==> !occurs_at(text, pattern, j),
    }
}

/// The column that a search result names, as a mathematical integer.
pub open spec fn column_of(found: Option<usize>) -> Option<int> {
    match found {
        Some(c) => Some(c as int),
        None => None,
    }
}

/// The recursive definition and the declarative one name the same column.
pub proof fn lemma_first_occurrence(text: Seq<char>, pattern: Seq<char>, from: int)
    requires
        0 <= from,
    ensures
        is_first_occurrence(text, pattern, from, first_occurrence(text, pattern, from)),
    decreases text.len() - from,
{
    if from + pattern.len() > text.len() {
    } else if occurs_at(text, pattern, from) {
    } else {
        lemma_first_occurrence(text, pattern, from + 1);
    }
}

/// The characters of a string slice, one element per Unicode scalar value.
pub fn to_chars(s: &str) -> (chars: Vec<char>)
    ensures
        chars@ == s@,
{
    let mut chars: Vec<char> = Vec::new();
    for c in it: s.chars()
        invariant
            chars@ == it.seq().take(it.index()),
            it.seq() == s@,
    {
        chars.push(c);
    }
    chars
}

/// Whether `pattern` occurs in `text` at column `at`.
pub fn occurs_at_column(text: &Vec<char>, pattern: &Vec<char>, at: usize) -> (hit: bool)
    ensures
        hit == occurs_at(text@, pattern@, at as int),
{
    if pattern.len() > text.len() || at > text.len() - pattern.len() {
        return false;
    }
    let mut k: usize = 0;
    while k < pattern.len()
        invariant
            k <= pattern.len(),
            at + pattern.len() <= text.len(),
            forall|j: int| 0 <= j < k ==> text@[at + j] == #[trigger] pattern@[j],
        decreases pattern.len() - k,
    {
        if text[at + k] != pattern[k] {
            return false;
        }
        k += 1;
    }
    true
}

/// Forward search: the lowest column at or after `from` at which `pattern`
/// occurs in `text`.
pub fn find_forward(text: &Vec<char>, pattern: &Vec<char>, from: usize) -> (found: Option<usize>)
    ensures
        column_of(found) == first_occurrence(text@, pattern@, from as int),
        is_first_occurrence(text@, pattern@, from as int, column_of(found)),
{
    proof {
        lemma_first_occurrence(text@, pattern@, from as int);
    }
    if pattern.len() > text.len() || from > text.len() - pattern.len() {
        return None;
    }
    let ghost answer = first_occurrence(text@, pattern@, from as int);
    let last: usize = text.len() - pattern.len();
    let mut c: usize = from;
    while c <= last
        invariant
            from <= c <= last + 1,
            last + pattern.len() == text.len(),
            answer == first_occurrence(text@, pattern@, from as int),
            answer == first_occurrence(text@, pattern@, c as int),
            is_first_occurrence(text@, pattern@, from as int, answer),
        decreases last + 1 - c,
    {
        if occurs_at_column(text, pattern, c) {
            return Some(c);
        }
        c += 1;
    }
    None
}

/// Backward search: the highest column at which `pattern` occurs in `text`
/// and ends at or before column `bound`.
pub fn find_backward(text: &Vec<char>, pattern: &Vec<char>, bound: usize) -> (found: Option<usize>)
    ensures
        is_last_occurrence(text@, pattern@, bound as int, column_of(found)),
{
    let end: usize = if bound < text.len() { bound } else { text.len() };
    if pattern.len() > end {
        return None;
    }
    let mut c: usize = end - pattern.len();
    loop
        invariant
            c + pattern.len() <= end,
            end <= text.len(),
            end == bound || (end == text.len() && end < bound),
            forall|j: int| c < j && j + pattern.len() <= bound ==> !occurs_at(text@, pattern@, j),
        decreases c,
    {
        if occurs_at_column(text, pattern, c) {
            return Some(c);
        }
        if c == 0 {
            return None;
        }
        c -= 1;
    }
}

} // verus!
