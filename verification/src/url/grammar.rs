//! The grammar of a request target as mathematics, over bytes: character
//! classes, percent-decoding, dot-segment collapsing, and the canonical form.

use vstd::prelude::*;
use vstd::utf8::valid_utf8;

verus! {

/// `/`
pub const SLASH: u8 = 0x2F;

/// `?`
pub const QUESTION: u8 = 0x3F;

/// `#`
pub const HASH: u8 = 0x23;

/// `%`
pub const PERCENT: u8 = 0x25;

/// `.`
pub const DOT: u8 = 0x2E;

/// `ALPHA / DIGIT / "-" / "." / "_" / "~"`.
pub open spec fn is_unreserved(b: u8) -> bool {
    (0x61 <= b && b <= 0x7A) || (0x41 <= b && b <= 0x5A) || (0x30 <= b && b <= 0x39) || b == 0x2D
        || b == 0x2E || b == 0x5F || b == 0x7E
}

/// `"!" / "$" / "&" / "'" / "(" / ")" / "*" / "+" / "," / ";" / "="`.
pub open spec fn is_sub_delim(b: u8) -> bool {
    b == 0x21 || b == 0x24 || b == 0x26 || b == 0x27 || b == 0x28 || b == 0x29 || b == 0x2A || b
        == 0x2B || b == 0x2C || b == 0x3B || b == 0x3D
}

/// A byte that may stand unescaped in a path segment.
pub open spec fn is_pchar(b: u8) -> bool {
    is_unreserved(b) || is_sub_delim(b) || b == 0x3A || b == 0x40
}

/// A byte that may stand unescaped in a segment, or in a query when `query`
/// is set: there `/` and `?` are allowed too.
pub open spec fn is_plain(b: u8, query: bool) -> bool {
    is_pchar(b) || (query && (b == 0x2F || b == 0x3F))
}

/// An ASCII hexadecimal digit.
pub open spec fn is_hex_digit(b: u8) -> bool {
    (0x30 <= b && b <= 0x39) || (0x61 <= b && b <= 0x66) || (0x41 <= b && b <= 0x46)
}

/// The value of a hexadecimal digit.
pub open spec fn hex_val(b: u8) -> int {
    if 0x30 <= b && b <= 0x39 {
        b - 0x30
    } else if 0x61 <= b && b <= 0x66 {
        b - 0x61 + 10
    } else {
        b - 0x41 + 10
    }
}

/// The upper-case hexadecimal digit of a value below sixteen.
pub open spec fn hex_digit(n: int) -> u8 {
    if n < 10 {
        (0x30 + n) as u8
    } else {
        (0x41 + n - 10) as u8
    }
}

/// The first index at or after `from` that holds `a` or `b`, or the length.
pub open spec fn scan_to(s: Seq<u8>, from: int, a: u8, b: u8) -> int
    decreases s.len() - from,
{
    if 0 <= from < s.len() && s[from] != a && s[from] != b {
        scan_to(s, from + 1, a, b)
    } else {
        from
    }
}

/// Where the path ends: at the first `?` or `#`, or at the end.
pub open spec fn path_end(raw: Seq<u8>) -> int {
    scan_to(raw, 0, 0x3F, 0x23)
}

/// Where the query that starts at `from` ends: at the first `#`, or at the
/// end.
pub open spec fn query_end(raw: Seq<u8>, from: int) -> int {
    scan_to(raw, from, 0x23, 0x23)
}

/// Where the piece that starts at `from` ends: at the first `/`, or at the
/// end.
pub open spec fn piece_end(path: Seq<u8>, from: int) -> int {
    scan_to(path, from, 0x2F, 0x2F)
}

/// The percent-decoded bytes of a segment or query, or `None` where a byte is
/// outside the grammar or `%` is not followed by two hex digits.
pub open spec fn decode(s: Seq<u8>, query: bool) -> Option<Seq<u8>>
    decreases s.len(),
{
    if s.len() == 0 {
        Some(seq![])
    } else if s[0] == 0x25 {
        if s.len() >= 3 && is_hex_digit(s[1]) && is_hex_digit(s[2]) {
            match decode(s.skip(3), query) {
                Some(rest) => Some(seq![(hex_val(s[1]) * 16 + hex_val(s[2])) as u8] + rest),
                None => None,
            }
        } else {
            None
        }
    } else if is_plain(s[0], query) {
        match decode(s.skip(1), query) {
            Some(rest) => Some(seq![s[0]] + rest),
            None => None,
        }
    } else {
        None
    }
}

/// The decoded text of a segment or query: its bytes must be valid UTF-8.
pub open spec fn decode_text(s: Seq<u8>, query: bool) -> Option<Seq<u8>> {
    match decode(s, query) {
        Some(d) => if valid_utf8(d) {
            Some(d)
        } else {
            None
        },
        None => None,
    }
}

/// `.`
pub open spec fn is_dot(seg: Seq<u8>) -> bool {
    seg.len() == 1 && seg[0] == 0x2E
}

/// `..`
pub open spec fn is_dot_dot(seg: Seq<u8>) -> bool {
    seg.len() == 2 && seg[0] == 0x2E && seg[1] == 0x2E
}

/// A segment that is kept as it is: not empty, not `.`, not `..`.
pub open spec fn is_kept(seg: Seq<u8>) -> bool {
    seg.len() > 0 && !is_dot(seg) && !is_dot_dot(seg)
}

/// The retained segments after one more decoded segment: an empty one and `.`
/// change nothing, `..` removes the last retained segment if there is one,
/// and any other is appended.
pub open spec fn push_segment(acc: Seq<Seq<u8>>, seg: Seq<u8>) -> Seq<Seq<u8>> {
    if seg.len() == 0 || is_dot(seg) {
        acc
    } else if is_dot_dot(seg) {
        if acc.len() > 0 {
            acc.drop_last()
        } else {
            acc
        }
    } else {
        acc.push(seg)
    }
}

/// The retained segments of a path, whose pieces are separated by `/`, after
/// those in `acc`; `None` where a piece does not decode.
pub open spec fn segments_of(path: Seq<u8>, acc: Seq<Seq<u8>>) -> Option<Seq<Seq<u8>>>
    decreases path.len(),
{
    let end = piece_end(path, 0);
    match decode_text(path.subrange(0, end), false) {
        None => None,
        Some(seg) => {
            if end < 0 || end >= path.len() {
                Some(push_segment(acc, seg))
            } else {
                segments_of(path.skip(end + 1), push_segment(acc, seg))
            }
        },
    }
}

/// What a request target parses to: the retained, decoded segments and the
/// decoded query, which is absent when it is empty.
pub struct Parsed {
    pub segments: Seq<Seq<u8>>,
    pub query: Option<Seq<u8>>,
}

/// The query of a target whose path ends at `pe`: what stands between a `?`
/// there and the fragment, decoded. `Some(None)` where there is no query or
/// an empty one, `None` where it does not decode.
pub open spec fn query_of(raw: Seq<u8>, pe: int) -> Option<Option<Seq<u8>>> {
    if 0 <= pe < raw.len() && raw[pe] == 0x3F {
        match decode_text(raw.subrange(pe + 1, query_end(raw, pe + 1)), true) {
            None => None,
            Some(q) => if q.len() == 0 {
                Some(None)
            } else {
                Some(Some(q))
            },
        }
    } else {
        Some(None)
    }
}

/// The parse of a request target, or `None` where it is outside the grammar.
/// The fragment is skipped unread.
pub open spec fn parse_spec(raw: Seq<u8>) -> Option<Parsed> {
    let pe = path_end(raw);
    match segments_of(raw.subrange(0, pe), seq![]) {
        None => None,
        Some(segments) => match query_of(raw, pe) {
            None => None,
            Some(query) => Some(Parsed { segments, query }),
        },
    }
}

/// One byte, percent-encoded unless it may stand as it is.
pub open spec fn encode_byte(b: u8, query: bool) -> Seq<u8> {
    if is_plain(b, query) {
        seq![b]
    } else {
        seq![0x25u8, hex_digit(b as int / 16), hex_digit(b as int % 16)]
    }
}

/// A segment or query with every byte outside the grammar percent-encoded.
pub open spec fn encode(s: Seq<u8>, query: bool) -> Seq<u8>
    decreases s.len(),
{
    if s.len() == 0 {
        seq![]
    } else {
        encode_byte(s[0], query) + encode(s.skip(1), query)
    }
}

/// Every segment with a `/` in front.
pub open spec fn join(segments: Seq<Seq<u8>>) -> Seq<u8>
    decreases segments.len(),
{
    if segments.len() == 0 {
        seq![]
    } else {
        seq![0x2Fu8] + encode(segments[0], false) + join(segments.skip(1))
    }
}

/// The canonical text of the path of a parse: `/` alone for no segments,
/// else the segments joined.
pub open spec fn path_text(segments: Seq<Seq<u8>>) -> Seq<u8> {
    if segments.len() == 0 {
        seq![0x2Fu8]
    } else {
        join(segments)
    }
}

/// The canonical text of a parse: the path, then `?` and the query if there
/// is one.
pub open spec fn sanitize(p: Parsed) -> Seq<u8> {
    path_text(p.segments) + (match p.query {
        Some(q) => seq![0x3Fu8] + encode(q, true),
        None => seq![],
    })
}

/// All bytes may stand unescaped.
pub open spec fn all_plain(s: Seq<u8>, query: bool) -> bool {
    forall|i: int| 0 <= i < s.len() ==> is_plain(#[trigger] s[i], query)
}

/// A piece that a canonical path may hold: unescaped, and kept as it is.
pub open spec fn is_canonical_piece(s: Seq<u8>) -> bool {
    all_plain(s, false) && is_kept(s)
}

/// What follows a `/` in a canonical path: canonical pieces separated by `/`.
pub open spec fn is_canonical_rest(rest: Seq<u8>) -> bool
    decreases rest.len(),
{
    let end = piece_end(rest, 0);
    is_canonical_piece(rest.subrange(0, end)) && (end < 0 || end >= rest.len()
        || is_canonical_rest(rest.skip(end + 1)))
}

/// A canonical path: `/` alone, or a `/` before each of its canonical pieces.
pub open spec fn is_canonical_path(path: Seq<u8>) -> bool {
    path.len() >= 1 && path[0] == 0x2F && (path.len() == 1 || is_canonical_rest(path.skip(1)))
}

/// The target is already in canonical form: a canonical path, then nothing,
/// or `?` and a query that is not empty and holds no escape; no fragment.
pub open spec fn is_canonical(raw: Seq<u8>) -> bool {
    let pe = path_end(raw);
    &&& is_canonical_path(raw.subrange(0, pe))
    &&& pe < raw.len() ==> {
        &&& raw[pe] == 0x3F
        &&& pe + 1 < raw.len()
        &&& all_plain(raw.subrange(pe + 1, raw.len() as int), true)
    }
}

/// A scan ends inside the sequence, passes over no stop, and ends at one
/// unless it ends at the end.
pub proof fn lemma_scan_to_bounds(s: Seq<u8>, from: int, a: u8, b: u8)
    requires
        0 <= from <= s.len(),
    ensures
        from <= scan_to(s, from, a, b) <= s.len(),
        forall|i: int| from <= i < scan_to(s, from, a, b) ==> #[trigger] s[i] != a && s[i] != b,
        scan_to(s, from, a, b) < s.len() ==> s[scan_to(s, from, a, b)] == a || s[scan_to(
            s,
            from,
            a,
            b,
        )] == b,
    decreases s.len() - from,
{
    if from < s.len() && s[from] != a && s[from] != b {
        lemma_scan_to_bounds(s, from + 1, a, b);
    }
}

/// The first stop at or after `from` is where a scan from `from` ends.
pub proof fn lemma_scan_to_is(s: Seq<u8>, from: int, a: u8, b: u8, at: int)
    requires
        0 <= from <= at <= s.len(),
        forall|i: int| from <= i < at ==> #[trigger] s[i] != a && s[i] != b,
        at < s.len() ==> s[at] == a || s[at] == b,
    ensures
        scan_to(s, from, a, b) == at,
    decreases at - from,
{
    if from < at {
        lemma_scan_to_is(s, from + 1, a, b, at);
    }
}

} // verus!
