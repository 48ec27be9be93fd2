//! Building an [`Error`] for a place in the source: its line, the text of the
//! line, and the byte position within it.

use super::grammar::{is_break, line_end, line_of, line_start, locate, utf8_len};
use super::token::{Error, ErrorKind};
use crate::text::{char_width, lemma_encode_concat, lemma_encode_push, substring};
use vstd::prelude::*;

verus! {

/// The encoding of a part of a text is no longer than that of the whole.
pub proof fn lemma_utf8_len_subrange(s: Seq<char>, a: int, b: int)
    requires
        0 <= a <= b <= s.len(),
    ensures
        0 <= utf8_len(s.subrange(a, b)) <= utf8_len(s),
{
    let left = s.subrange(0, a);
    let mid = s.subrange(a, b);
    let right = s.subrange(b, s.len() as int);
    lemma_encode_concat(left, mid);
    lemma_encode_concat(left + mid, right);
    assert(left + mid + right =~= s);
}

/// The error for `width` bytes of offending text at character index `at` of
/// `source`, with `message` as its reason. A width of zero counts as one.
pub fn error(source: &Vec<char>, kind: ErrorKind, at: usize, width: usize, message: String) -> (e:
    Error)
    requires
        at <= source.len(),
        utf8_len(source@) <= usize::MAX,
    ensures
        e@ == locate(source@, kind, message@, at as int, width as int),
        e.pos.start < e.pos.end || e.pos.start == usize::MAX,
{
    let len: usize = source.len();
    let mut line: usize = 0;
    let mut lstart: usize = 0;
    let mut i: usize = 0;
    while i < at
        invariant
            i <= at <= len,
            len == source.len(),
            line == line_of(source@, i as int),
            lstart == line_start(source@, i as int),
            line <= i,
            lstart <= i,
        decreases at - i,
    {
        let c: char = source[i];
        let ends: bool = c == '\n' || (c == '\r' && !(i + 1 < len && source[i + 1] == '\n'));
        assert(ends == is_break(source@, i as int));
        i = i + 1;
        if ends {
            line = line + 1;
            lstart = i;
        }
    }
    let mut lend: usize = lstart;
    while lend < len && source[lend] != '\r' && source[lend] != '\n'
        invariant
            lstart <= lend <= len,
            len == source.len(),
            line_end(source@, lstart as int) == line_end(source@, lend as int),
        decreases len - lend,
    {
        lend = lend + 1;
    }
    let line_raw: String = substring(source, lstart, lend);
    let mut start: usize = 0;
    let mut j: usize = lstart;
    while j < at
        invariant
            lstart <= j <= at <= len,
            len == source.len(),
            start == utf8_len(source@.subrange(lstart as int, j as int)),
            utf8_len(source@) <= usize::MAX,
        decreases at - j,
    {
        let w: usize = char_width(source[j]);
        proof {
            lemma_encode_push(source@.subrange(lstart as int, j as int), source@[j as int]);
            assert(source@.subrange(lstart as int, j as int).push(source@[j as int])
                =~= source@.subrange(lstart as int, j + 1));
            lemma_utf8_len_subrange(source@, lstart as int, j + 1);
        }
        start = start + w;
        j = j + 1;
    }
    let width: usize = if width < 1 {
        1
    } else {
        width
    };
    let end: usize = if width <= usize::MAX - start {
        start + width
    } else {
        usize::MAX
    };
    Error { kind, reason: message, line_raw, line, pos: start..end }
}

} // verus!
