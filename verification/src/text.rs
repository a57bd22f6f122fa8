//! Text as it stands in a file: lines between line terminators, and
//! characters as UTF-8 bytes.
use vstd::prelude::*;
use vstd::utf8::{char_is_scalar, encode_scalar, encode_utf8};

verus! {

/// The column of the first line feed of `text`, and the length of `text`
/// where it holds none.
pub open spec fn newline_index(text: Seq<char>) -> int
    decreases text.len(),
{
    if text.len() == 0 || text[0] == '\n' {
        0
    } else {
        1 + newline_index(text.drop_first())
    }
}

/// A line without the carriage return at its end, if it has one there.
pub open spec fn without_cr(line: Seq<char>) -> Seq<char> {
    if line.len() > 0 && line.last() == '\r' {
        line.drop_last()
    } else {
        line
    }
}

/// The lines of a text.
///
/// A line ends with a line feed; the line feed, and a carriage return
/// directly before it, do not belong to the line. What follows the last
/// line feed is a line of its own if it is not empty, and it keeps a
/// carriage return at its end. An empty text has no line.
pub open spec fn split_lines(text: Seq<char>) -> Seq<Seq<char>>
    decreases text.len(),
{
    if text.len() == 0 {
        Seq::empty()
    } else {
        let k = newline_index(text);
        proof {
            lemma_newline_index_bounds(text);
        }
        if k >= text.len() {
            seq![text]
        } else {
            seq![without_cr(text.take(k))] + split_lines(text.skip(k + 1))
        }
    }
}

/// The text that holds each line of `lines` followed by one line feed.
pub open spec fn join_lines(lines: Seq<Seq<char>>) -> Seq<char>
    decreases lines.len(),
{
    if lines.len() == 0 {
        Seq::empty()
    } else {
        join_lines(lines.drop_last()) + lines.last() + seq!['\n']
    }
}

/// The first line feed stands within the text or at its end.
pub proof fn lemma_newline_index_bounds(text: Seq<char>)
    ensures
        0 <= newline_index(text) <= text.len(),
    decreases text.len(),
{
    if text.len() > 0 && text[0] != '\n' {
        lemma_newline_index_bounds(text.drop_first());
    }
}

/// The column `k` is the first line feed of a text that holds none before
/// it, and holds one there or ends there.
pub proof fn lemma_newline_index_is(text: Seq<char>, k: int)
    requires
        0 <= k <= text.len(),
        forall|j: int| 0 <= j < k ==> text[j] != '\n',
        k == text.len() || text[k] == '\n',
    ensures
        newline_index(text) == k,
    decreases text.len(),
{
    if text.len() > 0 && text[0] != '\n' {
        let rest = text.drop_first();
        assert forall|j: int| 0 <= j < k - 1 implies rest[j] != '\n' by {
            assert(rest[j] == text[j + 1]);
        }
        lemma_newline_index_is(rest, k - 1);
    }
}

/// No line feed stands before the first one.
pub proof fn lemma_newline_index_first(text: Seq<char>)
    ensures
        forall|j: int| 0 <= j < newline_index(text) ==> text[j] != '\n',
        newline_index(text) < text.len() ==> text[newline_index(text)] == '\n',
    decreases text.len(),
{
    if text.len() > 0 && text[0] != '\n' {
        let rest = text.drop_first();
        lemma_newline_index_first(rest);
        lemma_newline_index_bounds(rest);
        assert forall|j: int| 0 <= j < newline_index(text) implies text[j] != '\n' by {
            if j > 0 {
                assert(text[j] == rest[j - 1]);
            }
        }
    }
}

/// The encoding of a text that ends with the character `c` is the encoding
/// of the text before it, followed by the encoding of `c`.
pub proof fn lemma_encode_utf8_push(chars: Seq<char>, c: char)
    ensures
        encode_utf8(chars.push(c)) == encode_utf8(chars) + encode_scalar(c as u32),
    decreases chars.len(),
{
    if chars.len() == 0 {
        assert(chars.push(c).drop_first() =~= Seq::<char>::empty());
        assert(encode_utf8(Seq::<char>::empty()) =~= Seq::<u8>::empty());
        assert(chars.push(c)[0] == c);
        assert(encode_utf8(chars.push(c)) =~= encode_scalar(c as u32));
        assert(encode_utf8(chars) =~= Seq::<u8>::empty());
    } else {
        assert(chars.push(c).drop_first() =~= chars.drop_first().push(c));
        lemma_encode_utf8_push(chars.drop_first(), c);
        assert(encode_utf8(chars.push(c)) =~= encode_utf8(chars) + encode_scalar(c as u32));
    }
}

/// The encoding of two texts in a row is the two encodings in a row.
pub proof fn lemma_encode_utf8_concat(a: Seq<char>, b: Seq<char>)
    ensures
        encode_utf8(a + b) == encode_utf8(a) + encode_utf8(b),
    decreases b.len(),
{
    if b.len() == 0 {
        assert(a + b =~= a);
        assert(encode_utf8(a) + encode_utf8(b) =~= encode_utf8(a));
    } else {
        let front = b.drop_last();
        assert(a + b =~= (a + front).push(b.last()));
        assert(b =~= front.push(b.last()));
        lemma_encode_utf8_push(a + front, b.last());
        lemma_encode_utf8_push(front, b.last());
        lemma_encode_utf8_concat(a, front);
        assert(encode_utf8(a + b) =~= encode_utf8(a) + encode_utf8(b));
    }
}

/// Appends the UTF-8 encoding of `c` to `out`.
pub fn push_utf8(out: &mut Vec<u8>, c: char)
    ensures
        final(out)@ == old(out)@ + encode_scalar(c as u32),
{
    let u: u32 = c as u32;
    proof {
        char_is_scalar(c);
    }
    if u <= 0x7F {
        assert((u & 0x7F) <= 0xFF) by (bit_vector);
        out.push((u & 0x7F) as u8);
        assert(out@ =~= old(out)@ + encode_scalar(u));
    } else if u <= 0x7FF {
        assert(((u >> 6) & 0x1F) <= 0xFF && (u & 0x3F) <= 0xFF) by (bit_vector);
        out.push(0xC0 | ((u >> 6) & 0x1F) as u8);
        out.push(0x80 | (u & 0x3F) as u8);
        assert(out@ =~= old(out)@ + encode_scalar(u));
    } else if u <= 0xFFFF {
        assert(((u >> 12) & 0x0F) <= 0xFF && ((u >> 6) & 0x3F) <= 0xFF && (u & 0x3F) <= 0xFF)
            by (bit_vector);
        out.push(0xE0 | ((u >> 12) & 0x0F) as u8);
        out.push(0x80 | ((u >> 6) & 0x3F) as u8);
        out.push(0x80 | (u & 0x3F) as u8);
        assert(out@ =~= old(out)@ + encode_scalar(u));
    } else {
        assert(((u >> 18) & 0x7) <= 0xFF && ((u >> 12) & 0x3F) <= 0xFF && ((u >> 6) & 0x3F)
            <= 0xFF && (u & 0x3F) <= 0xFF) by (bit_vector);
        out.push(0xF0 | ((u >> 18) & 0x7) as u8);
        out.push(0x80 | ((u >> 12) & 0x3F) as u8);
        out.push(0x80 | ((u >> 6) & 0x3F) as u8);
        out.push(0x80 | (u & 0x3F) as u8);
        assert(out@ =~= old(out)@ + encode_scalar(u));
    }
}

/// Appends the UTF-8 encoding of `chars` to `out`.
pub fn extend_utf8(out: &mut Vec<u8>, chars: &Vec<char>)
    ensures
        final(out)@ == old(out)@ + encode_utf8(chars@),
{
    let mut i: usize = 0;
    assert(chars@.take(0) =~= Seq::<char>::empty());
    assert(out@ =~= old(out)@ + encode_utf8(chars@.take(0)));
    while i < chars.len()
        invariant
            i <= chars.len(),
            out@ == old(out)@ + encode_utf8(chars@.take(i as int)),
        decreases chars.len() - i,
    {
        let ghost before = out@;
        push_utf8(out, chars[i]);
        proof {
            assert(chars@.take(i + 1) =~= chars@.take(i as int).push(chars@[i as int]));
            lemma_encode_utf8_push(chars@.take(i as int), chars@[i as int]);
            assert(out@ =~= old(out)@ + encode_utf8(chars@.take(i + 1)));
        }
        i += 1;
    }
    assert(chars@.take(i as int) =~= chars@);
}

} // verus!
