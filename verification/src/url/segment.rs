//! Decoding one segment or query of a request target.

use super::grammar::{
    all_plain, decode, decode_text, hex_val, is_dot, is_dot_dot, is_hex_digit, is_kept, is_plain,
    is_sub_delim, is_unreserved, DOT, PERCENT, QUESTION, SLASH,
};
use crate::text::string_from_utf8;
use vstd::prelude::*;
use vstd::utf8::{
    decode_utf8_encode_utf8, encode_utf8, is_leading_byte_width_1, partial_valid_utf8,
    partial_valid_utf8_extend_ascii_block, valid_utf8,
};

verus! {

/// The request target is outside the grammar.
#[derive(Debug, Clone, Copy, PartialEq, Eq, Structural)]
pub enum ParseError {
    Invalid,
}

/// One decoded segment, or the decoded query: a range of the raw text
/// where that held no escape, or the decoded text where it did.
#[derive(Debug)]
pub enum Segment {
    Borrowed { start: usize, end: usize },
    Owned(String),
}

/// What becomes of a decoded segment.
#[derive(Debug, Clone, Copy, PartialEq, Eq, Structural)]
pub enum CheckResult {
    Empty,
    Pop,
    Keep,
}

impl Segment {
    /// The decoded bytes, given the bytes of the raw text.
    pub open spec fn bytes(&self, raw: Seq<u8>) -> Seq<u8> {
        match *self {
            Segment::Borrowed { start, end } => raw.subrange(start as int, end as int),
            Segment::Owned(s) => encode_utf8(s@),
        }
    }

    /// A borrowed range lies inside the raw text and holds no escape.
    pub open spec fn wf(&self, raw: Seq<u8>) -> bool {
        match *self {
            Segment::Borrowed { start, end } => start <= end <= raw.len() && all_plain(
                raw.subrange(start as int, end as int),
                true,
            ),
            Segment::Owned(_) => true,
        }
    }
}

/// The decoded bytes of each segment.
pub open spec fn models(segments: Seq<Segment>, raw: Seq<u8>) -> Seq<Seq<u8>> {
    Seq::new(segments.len(), |i: int| segments[i].bytes(raw))
}

/// Every segment fits the raw text.
pub open spec fn all_wf(segments: Seq<Segment>, raw: Seq<u8>) -> bool {
    forall|i: int| 0 <= i < segments.len() ==> (#[trigger] segments[i]).wf(raw)
}

/// `ALPHA / DIGIT / "-" / "." / "_" / "~"`.
pub fn unreserved(b: u8) -> (r: bool)
    ensures
        r == is_unreserved(b),
{
    (0x61 <= b && b <= 0x7A) || (0x41 <= b && b <= 0x5A) || (0x30 <= b && b <= 0x39) || b == 0x2D
        || b == 0x2E || b == 0x5F || b == 0x7E
}

/// `"!" / "$" / "&" / "'" / "(" / ")" / "*" / "+" / "," / ";" / "="`.
pub fn sub_delims(b: u8) -> (r: bool)
    ensures
        r == is_sub_delim(b),
{
    b == 0x21 || b == 0x24 || b == 0x26 || b == 0x27 || b == 0x28 || b == 0x29 || b == 0x2A || b
        == 0x2B || b == 0x2C || b == 0x3B || b == 0x3D
}

/// A byte that may stand unescaped in a segment, or in a query when `query`
/// is set.
pub fn plain(b: u8, query: bool) -> (r: bool)
    ensures
        r == is_plain(b, query),
{
    unreserved(b) || sub_delims(b) || b == 0x3A || b == 0x40 || (query && (b == SLASH || b
        == QUESTION))
}

/// Tells whether `b` is an ASCII hexadecimal digit.
pub fn hex_digit_byte(b: u8) -> (r: bool)
    ensures
        r == is_hex_digit(b),
{
    (0x30 <= b && b <= 0x39) || (0x61 <= b && b <= 0x66) || (0x41 <= b && b <= 0x46)
}

/// The byte that two hexadecimal digits stand for.
pub fn from_hex(high: u8, low: u8) -> (r: u8)
    requires
        is_hex_digit(high),
        is_hex_digit(low),
    ensures
        r == hex_val(high) * 16 + hex_val(low),
{
    nibble(high) * 16 + nibble(low)
}

fn nibble(b: u8) -> (r: u8)
    requires
        is_hex_digit(b),
    ensures
        r == hex_val(b),
        r < 16,
{
    if 0x30 <= b && b <= 0x39 {
        b - 0x30
    } else if 0x61 <= b && b <= 0x66 {
        b - 0x61 + 10
    } else {
        b - 0x41 + 10
    }
}

/// `prefix` in front of a decoding, where there is one.
pub open spec fn glue(prefix: Seq<u8>, tail: Option<Seq<u8>>) -> Option<Seq<u8>> {
    match tail {
        Some(t) => Some(prefix + t),
        None => None,
    }
}

/// Bytes that stand unescaped decode to themselves.
pub proof fn lemma_decode_prefix(s: Seq<u8>, k: int, query: bool)
    requires
        0 <= k <= s.len(),
        forall|i: int| 0 <= i < k ==> is_plain(#[trigger] s[i], query),
    ensures
        decode(s, query) == glue(s.subrange(0, k), decode(s.skip(k), query)),
    decreases k,
{
    if k == 0 {
        assert(s.skip(0) =~= s);
        match decode(s, query) {
            Some(d) => {
                assert(s.subrange(0, 0) + d =~= d);
            },
            None => {},
        }
    } else {
        lemma_decode_prefix(s.skip(1), k - 1, query);
        assert(s.skip(1).skip(k - 1) =~= s.skip(k));
        assert(s[0] != 0x25);
        match decode(s.skip(k), query) {
            Some(d) => {
                assert(seq![s[0]] + (s.skip(1).subrange(0, k - 1) + d) =~= s.subrange(0, k) + d);
            },
            None => {},
        }
    }
}

/// ASCII bytes are valid UTF-8.
pub proof fn lemma_ascii_valid(s: Seq<u8>)
    requires
        forall|i: int| 0 <= i < s.len() ==> #[trigger] s[i] < 0x80,
    ensures
        valid_utf8(s),
{
    assert(s.subrange(0, 0) =~= Seq::<u8>::empty());
    assert(partial_valid_utf8(s, 0));
    assert forall|i: int| 0 <= 0 <= i < s.len() <= s.len() implies #[trigger] is_leading_byte_width_1(
        s[i],
    ) by {
        assert(s[i] < 0x80);
    }
    partial_valid_utf8_extend_ascii_block(s, 0, s.len() as int);
    assert(s.subrange(0, s.len() as int) =~= s);
}

/// A decoding of something is not empty.
pub proof fn lemma_decode_nonempty(s: Seq<u8>, query: bool)
    requires
        s.len() > 0,
    ensures
        decode(s, query) matches Some(d) ==> d.len() > 0,
{
}

/// The index of the first byte in `bytes[start..end]` that may not stand
/// unescaped, or `end`.
pub fn take(bytes: &[u8], start: usize, end: usize, query: bool) -> (stop: usize)
    requires
        start <= end <= bytes@.len(),
    ensures
        start <= stop <= end,
        forall|i: int| start <= i < stop ==> is_plain(#[trigger] bytes@[i], query),
        stop < end ==> !is_plain(bytes@[stop as int], query),
{
    let mut i: usize = start;
    while i < end && plain(bytes[i], query)
        invariant
            start <= i <= end <= bytes@.len(),
            forall|j: int| start <= j < i ==> is_plain(#[trigger] bytes@[j], query),
        decreases end - i,
    {
        i = i + 1;
    }
    i
}

/// Decodes `bytes[start..end]`, whose first escape or foreign byte is at
/// `stop`, into text of its own.
pub fn continue_owned(bytes: &[u8], start: usize, stop: usize, end: usize, query: bool) -> (r:
    Result<Segment, ParseError>)
    requires
        start <= stop < end <= bytes@.len(),
        forall|i: int| start <= i < stop ==> is_plain(#[trigger] bytes@[i], query),
    ensures
        match decode_text(bytes@.subrange(start as int, end as int), query) {
            Some(d) => r matches Ok(seg) && seg is Owned && seg.bytes(bytes@) == d,
            None => r is Err,
        },
{
    let ghost piece = bytes@.subrange(start as int, end as int);
    let mut buf: Vec<u8> = Vec::new();
    let mut i: usize = start;
    while i < stop
        invariant
            start <= i <= stop < end <= bytes@.len(),
            buf@ == bytes@.subrange(start as int, i as int),
        decreases stop - i,
    {
        buf.push(bytes[i]);
        i = i + 1;
        assert(buf@ =~= bytes@.subrange(start as int, i as int));
    }
    proof {
        lemma_decode_prefix(piece, stop - start, query);
        assert(piece.subrange(0, stop - start) =~= buf@);
    }
    while i < end
        invariant
            start <= i <= end <= bytes@.len(),
            piece == bytes@.subrange(start as int, end as int),
            decode(piece, query) == glue(buf@, decode(piece.skip(i - start), query)),
        decreases end - i,
    {
        let ghost rest = piece.skip(i - start);
        let ghost before = buf@;
        let b: u8 = bytes[i];
        assert(rest[0] == b);
        if b == PERCENT {
            if end - i >= 3 && hex_digit_byte(bytes[i + 1]) && hex_digit_byte(bytes[i + 2]) {
                assert(rest[1] == bytes@[i + 1] && rest[2] == bytes@[i + 2]);
                let value: u8 = from_hex(bytes[i + 1], bytes[i + 2]);
                buf.push(value);
                i = i + 3;
                proof {
                    assert(rest.skip(3) =~= piece.skip(i - start));
                    match decode(rest.skip(3), query) {
                        Some(d) => {
                            assert(before + (seq![value] + d) =~= buf@ + d);
                        },
                        None => {},
                    }
                }
            } else {
                assert(rest.len() == end - i);
                return Err(ParseError::Invalid);
            }
        } else if plain(b, query) {
            buf.push(b);
            i = i + 1;
            proof {
                assert(rest.skip(1) =~= piece.skip(i - start));
                match decode(rest.skip(1), query) {
                    Some(d) => {
                        assert(before + (seq![b] + d) =~= buf@ + d);
                    },
                    None => {},
                }
            }
        } else {
            return Err(ParseError::Invalid);
        }
    }
    proof {
        assert(piece.skip(end - start) =~= Seq::<u8>::empty());
        assert(buf@ + Seq::<u8>::empty() =~= buf@);
    }
    let ghost decoded = buf@;
    match string_from_utf8(buf) {
        Some(s) => {
            proof {
                decode_utf8_encode_utf8(decoded);
            }
            Ok(Segment::Owned(s))
        },
        None => Err(ParseError::Invalid),
    }
}

/// Decodes the segment or query in `bytes[start..end]`: a range of the
/// raw text where nothing is escaped, decoded text of its own otherwise.
pub fn read_segment(bytes: &[u8], start: usize, end: usize, query: bool) -> (r: Result<
    Segment,
    ParseError,
>)
    requires
        start <= end <= bytes@.len(),
    ensures
        match decode_text(bytes@.subrange(start as int, end as int), query) {
            Some(d) => r matches Ok(seg) && seg.wf(bytes@) && seg.bytes(bytes@) == d && (seg
                is Borrowed <==> all_plain(bytes@.subrange(start as int, end as int), query)) && (
            seg is Borrowed ==> d == bytes@.subrange(start as int, end as int)),
            None => r is Err,
        },
{
    let ghost piece = bytes@.subrange(start as int, end as int);
    let stop: usize = take(bytes, start, end, query);
    if stop == end {
        proof {
            lemma_decode_prefix(piece, end - start, query);
            assert(piece.skip(end - start) =~= Seq::<u8>::empty());
            assert(piece.subrange(0, end - start) + Seq::<u8>::empty() =~= piece);
            assert forall|i: int| 0 <= i < piece.len() implies #[trigger] piece[i] < 0x80 by {
                assert(is_plain(bytes@[start + i], query));
            }
            lemma_ascii_valid(piece);
            assert(all_plain(piece, query)) by {
                assert forall|i: int| 0 <= i < piece.len() implies is_plain(
                    #[trigger] piece[i],
                    query,
                ) by {
                    assert(is_plain(bytes@[start + i], query));
                }
            }
            assert(all_plain(piece, true));
        }
        Ok(Segment::Borrowed { start, end })
    } else {
        assert(!all_plain(piece, query)) by {
            assert(piece[stop - start] == bytes@[stop as int]);
        }
        continue_owned(bytes, start, stop, end, query)
    }
}

/// Tells whether a decoded segment is dropped (empty or `.`), removes the
/// segment before it (`..`), or is kept.
pub fn check_segment(bytes: &[u8], seg: &Segment) -> (r: CheckResult)
    requires
        seg.wf(bytes@),
    ensures
        r is Empty <==> (seg.bytes(bytes@).len() == 0 || is_dot(seg.bytes(bytes@))),
        r is Pop <==> is_dot_dot(seg.bytes(bytes@)),
        r is Keep <==> is_kept(seg.bytes(bytes@)),
{
    match seg {
        Segment::Borrowed { start, end } => check_bytes(bytes, *start, *end),
        Segment::Owned(s) => {
            let text = s.as_str().as_bytes();
            let r = check_bytes(text, 0, text.len());
            assert(text@.subrange(0, text@.len() as int) =~= text@);
            r
        },
    }
}

fn check_bytes(bytes: &[u8], start: usize, end: usize) -> (r: CheckResult)
    requires
        start <= end <= bytes@.len(),
    ensures
        r is Empty <==> (end == start || is_dot(bytes@.subrange(start as int, end as int))),
        r is Pop <==> is_dot_dot(bytes@.subrange(start as int, end as int)),
        r is Keep <==> is_kept(bytes@.subrange(start as int, end as int)),
{
    let len: usize = end - start;
    if len == 0 {
        CheckResult::Empty
    } else if len == 1 && bytes[start] == DOT {
        CheckResult::Empty
    } else if len == 2 && bytes[start] == DOT && bytes[start + 1] == DOT {
        CheckResult::Pop
    } else {
        CheckResult::Keep
    }
}

} // verus!
