//! What holds of every request target: canonical text is a fixed point of
//! parsing, no retained segment escapes the root, and a canonical target
//! reads back as itself.

use super::grammar::{
    all_plain, decode, decode_text, encode, encode_byte, hex_digit, hex_val, is_canonical,
    is_canonical_path, is_canonical_rest, is_dot, is_dot_dot, is_hex_digit, is_kept, is_plain,
    join, lemma_scan_to_bounds, lemma_scan_to_is, parse_spec, path_end, path_text, piece_end,
    push_segment, sanitize, segments_of, Parsed, HASH, PERCENT, QUESTION, SLASH,
};
use super::segment::{lemma_ascii_valid, lemma_decode_prefix};
use vstd::prelude::*;
use vstd::utf8::valid_utf8;

verus! {

/// Bytes that may all stand unescaped are their own encoding.
pub proof fn lemma_encode_plain(s: Seq<u8>, query: bool)
    requires
        all_plain(s, query),
    ensures
        encode(s, query) == s,
    decreases s.len(),
{
    if s.len() > 0 {
        assert(is_plain(s[0], query));
        assert(all_plain(s.skip(1), query)) by {
            assert forall|i: int| 0 <= i < s.skip(1).len() implies is_plain(
                #[trigger] s.skip(1)[i],
                query,
            ) by {
                assert(is_plain(s[i + 1], query));
            }
        }
        lemma_encode_plain(s.skip(1), query);
        assert(seq![s[0]] + s.skip(1) =~= s);
    } else {
        assert(encode(s, query) =~= s);
    }
}

/// Bytes that may all stand unescaped decode to themselves, as text.
pub proof fn lemma_decode_plain(s: Seq<u8>, query: bool)
    requires
        all_plain(s, query),
    ensures
        decode_text(s, query) == Some(s),
{
    assert forall|i: int| 0 <= i < s.len() implies is_plain(#[trigger] s[i], query) by {}
    lemma_decode_prefix(s, s.len() as int, query);
    assert(s.skip(s.len() as int) =~= Seq::<u8>::empty());
    assert(s.subrange(0, s.len() as int) + Seq::<u8>::empty() =~= s);
    assert forall|i: int| 0 <= i < s.len() implies #[trigger] s[i] < 0x80 by {
        assert(is_plain(s[i], query));
    }
    lemma_ascii_valid(s);
}

/// The pieces between the `/` of what follows a `/` in a path.
pub open spec fn pieces_of(rest: Seq<u8>) -> Seq<Seq<u8>>
    decreases rest.len(),
{
    let end = piece_end(rest, 0);
    if end < 0 || end >= rest.len() {
        seq![rest]
    } else {
        seq![rest.subrange(0, end)] + pieces_of(rest.skip(end + 1))
    }
}

/// The pieces of a canonical path are its segments, and joining them gives
/// the path back.
pub proof fn lemma_canonical_rest(rest: Seq<u8>, acc: Seq<Seq<u8>>)
    requires
        is_canonical_rest(rest),
    ensures
        segments_of(rest, acc) == Some(acc + pieces_of(rest)),
        join(pieces_of(rest)) == seq![SLASH] + rest,
    decreases rest.len(),
{
    lemma_scan_to_bounds(rest, 0, SLASH, SLASH);
    let end = piece_end(rest, 0);
    let piece = rest.subrange(0, end);
    lemma_decode_plain(piece, false);
    lemma_encode_plain(piece, false);
    assert(push_segment(acc, piece) == acc.push(piece));
    if end >= rest.len() {
        assert(piece =~= rest);
        assert(acc + seq![rest] =~= acc.push(rest));
        assert(seq![rest].skip(1) =~= Seq::<Seq<u8>>::empty());
        assert(join(seq![rest].skip(1)) =~= Seq::<u8>::empty());
        assert(join(seq![rest]) =~= seq![SLASH] + rest);
    } else {
        let next = rest.skip(end + 1);
        lemma_canonical_rest(next, acc.push(piece));
        let tail = pieces_of(next);
        assert(acc.push(piece) + tail =~= acc + (seq![piece] + tail));
        assert((seq![piece] + tail).skip(1) =~= tail);
        assert(rest =~= piece + seq![SLASH] + next);
        assert(join(seq![piece] + tail) =~= seq![SLASH] + rest);
    }
}

/// A canonical path parses, and its segments give the path back.
pub proof fn lemma_canonical_path(path: Seq<u8>)
    requires
        is_canonical_path(path),
    ensures
        segments_of(path, seq![]) matches Some(segs) && path_text(segs) == path,
{
    let empty = Seq::<u8>::empty();
    let none = Seq::<Seq<u8>>::empty();
    lemma_scan_to_is(path, 0, SLASH, SLASH, 0);
    assert(path.subrange(0, 0) =~= empty);
    assert(valid_utf8(empty));
    assert(decode_text(empty, false) == Some(empty));
    assert(push_segment(none, empty) == none);
    let rest = path.skip(1);
    if path.len() == 1 {
        assert(rest =~= empty);
        assert(piece_end(rest, 0) == 0);
        assert(rest.subrange(0, 0) =~= empty);
        assert(segments_of(rest, none) == Some(none));
        assert(path =~= seq![SLASH]);
    } else {
        lemma_canonical_rest(rest, none);
        assert(none + pieces_of(rest) =~= pieces_of(rest));
        assert(seq![SLASH] + rest =~= path);
        assert(pieces_of(rest).len() >= 1);
    }
}

/// A canonical target parses, and its canonical text is the target itself.
pub proof fn lemma_canonical(raw: Seq<u8>)
    requires
        is_canonical(raw),
    ensures
        parse_spec(raw) matches Some(p) && sanitize(p) == raw,
{
    lemma_scan_to_bounds(raw, 0, QUESTION, HASH);
    let pe = path_end(raw);
    let path = raw.subrange(0, pe);
    lemma_canonical_path(path);
    if pe < raw.len() {
        let q = raw.subrange(pe + 1, raw.len() as int);
        assert forall|i: int| pe + 1 <= i < raw.len() implies #[trigger] raw[i] != HASH by {
            assert(is_plain(q[i - (pe + 1)], true));
        }
        lemma_scan_to_is(raw, pe + 1, HASH, HASH, raw.len() as int);
        lemma_decode_plain(q, true);
        lemma_encode_plain(q, true);
        assert(path + (seq![QUESTION] + q) =~= raw);
    } else {
        assert(path + Seq::<u8>::empty() =~= raw);
    }
}

/// What every parse is like: no segment is empty, `.` or `..`, the query
/// is not empty, and all of them are valid UTF-8.
pub open spec fn well_formed(p: Parsed) -> bool {
    &&& forall|i: int|
        0 <= i < p.segments.len() ==> is_kept(#[trigger] p.segments[i]) && valid_utf8(
            p.segments[i],
        )
    &&& p.query matches Some(q) ==> q.len() > 0 && valid_utf8(q)
}

/// Reading more pieces keeps the retained segments free of empty segments
/// and dot segments.
pub proof fn lemma_segments_kept(path: Seq<u8>, acc: Seq<Seq<u8>>)
    requires
        forall|i: int| 0 <= i < acc.len() ==> is_kept(#[trigger] acc[i]) && valid_utf8(acc[i]),
    ensures
        segments_of(path, acc) matches Some(segs) ==> forall|i: int|
            0 <= i < segs.len() ==> is_kept(#[trigger] segs[i]) && valid_utf8(segs[i]),
    decreases path.len(),
{
    let end = piece_end(path, 0);
    lemma_scan_to_bounds(path, 0, SLASH, SLASH);
    match decode_text(path.subrange(0, end), false) {
        None => {},
        Some(seg) => {
            let next = push_segment(acc, seg);
            assert forall|i: int| 0 <= i < next.len() implies is_kept(#[trigger] next[i])
                && valid_utf8(next[i]) by {
                if i < acc.len() {
                    assert(next[i] == acc[i]);
                }
            }
            if end < path.len() {
                lemma_segments_kept(path.skip(end + 1), next);
            }
        },
    }
}

/// Every parse is well formed.
pub proof fn lemma_parse_well_formed(raw: Seq<u8>)
    ensures
        parse_spec(raw) matches Some(p) ==> well_formed(p),
{
    lemma_segments_kept(raw.subrange(0, path_end(raw)), seq![]);
}

/// An encoding holds no `#`, and outside a query no `/` and no `?`.
pub proof fn lemma_encoded_bytes(s: Seq<u8>, query: bool)
    ensures
        forall|i: int|
            0 <= i < encode(s, query).len() ==> #[trigger] encode(s, query)[i] != HASH && (!query
                ==> encode(s, query)[i] != SLASH && encode(s, query)[i] != QUESTION),
    decreases s.len(),
{
    if s.len() > 0 {
        lemma_encoded_bytes(s.skip(1), query);
        let head = encode_byte(s[0], query);
        let tail = encode(s.skip(1), query);
        assert forall|i: int| 0 <= i < encode(s, query).len() implies #[trigger] encode(
            s,
            query,
        )[i] != HASH && (!query ==> encode(s, query)[i] != SLASH && encode(s, query)[i]
            != QUESTION) by {
            if i < head.len() {
                assert(encode(s, query)[i] == head[i]);
            } else {
                assert(encode(s, query)[i] == tail[i - head.len()]);
            }
        }
    }
}

/// Decoding undoes encoding.
pub proof fn lemma_decode_encode(s: Seq<u8>, query: bool)
    ensures
        decode(encode(s, query), query) == Some(s),
    decreases s.len(),
{
    if s.len() == 0 {
        assert(encode(s, query) =~= Seq::<u8>::empty());
        assert(s =~= Seq::<u8>::empty());
    } else {
        lemma_decode_encode(s.skip(1), query);
        let b = s[0];
        let e = encode(s, query);
        let tail = encode(s.skip(1), query);
        if is_plain(b, query) {
            assert(e =~= seq![b] + tail);
            assert(e.skip(1) =~= tail);
            assert(e[0] == b);
            assert(seq![b] + s.skip(1) =~= s);
        } else {
            let high = hex_digit(b as int / 16);
            let low = hex_digit(b as int % 16);
            assert(e =~= seq![PERCENT, high, low] + tail);
            assert(e.skip(3) =~= tail);
            assert(e[0] == PERCENT && e[1] == high && e[2] == low);
            assert(is_hex_digit(high) && is_hex_digit(low));
            assert(hex_val(high) == b as int / 16);
            assert(hex_val(low) == b as int % 16);
            assert((hex_val(high) * 16 + hex_val(low)) as u8 == b);
            assert(seq![b] + s.skip(1) =~= s);
        }
    }
}

/// Decoding the encoding of valid text gives the text.
pub proof fn lemma_decode_text_encode(s: Seq<u8>, query: bool)
    requires
        valid_utf8(s),
    ensures
        decode_text(encode(s, query), query) == Some(s),
{
    lemma_decode_encode(s, query);
}

/// Joined segments start with `/` and hold no `?` and no `#`.
pub proof fn lemma_join_bytes(segments: Seq<Seq<u8>>)
    ensures
        segments.len() > 0 ==> join(segments).len() > 0 && join(segments)[0] == SLASH,
        forall|i: int|
            0 <= i < join(segments).len() ==> #[trigger] join(segments)[i] != QUESTION && join(
                segments,
            )[i] != HASH,
    decreases segments.len(),
{
    if segments.len() > 0 {
        lemma_join_bytes(segments.skip(1));
        lemma_encoded_bytes(segments[0], false);
        let head = seq![SLASH] + encode(segments[0], false);
        let tail = join(segments.skip(1));
        assert forall|i: int| 0 <= i < join(segments).len() implies #[trigger] join(segments)[i]
            != QUESTION && join(segments)[i] != HASH by {
            if i == 0 {
            } else if i < head.len() {
                assert(join(segments)[i] == encode(segments[0], false)[i - 1]);
            } else {
                assert(join(segments)[i] == tail[i - head.len()]);
            }
        }
    }
}

/// The pieces of joined segments are the segments.
pub proof fn lemma_segments_of_join(segments: Seq<Seq<u8>>, acc: Seq<Seq<u8>>)
    requires
        segments.len() >= 1,
        forall|i: int|
            0 <= i < segments.len() ==> is_kept(#[trigger] segments[i]) && valid_utf8(
                segments[i],
            ),
    ensures
        segments_of(encode(segments[0], false) + join(segments.skip(1)), acc) == Some(
            acc + segments,
        ),
    decreases segments.len(),
{
    let first = segments[0];
    let head = encode(first, false);
    let others = segments.skip(1);
    let tail = join(others);
    let text = head + tail;
    lemma_encoded_bytes(first, false);
    lemma_join_bytes(others);
    assert forall|i: int| 0 <= i < head.len() implies #[trigger] text[i] != SLASH && text[i]
        != SLASH by {
        assert(text[i] == head[i]);
    }
    if head.len() < text.len() {
        assert(text[head.len() as int] == tail[0]);
    }
    lemma_scan_to_is(text, 0, SLASH, SLASH, head.len() as int);
    assert(text.subrange(0, head.len() as int) =~= head);
    lemma_decode_text_encode(first, false);
    assert(push_segment(acc, first) == acc.push(first));
    if segments.len() == 1 {
        assert(others =~= Seq::<Seq<u8>>::empty());
        assert(tail =~= Seq::<u8>::empty());
        assert(acc.push(first) =~= acc + segments);
    } else {
        assert(text.skip(head.len() as int + 1) =~= encode(others[0], false) + join(others.skip(1)));
        assert forall|i: int| 0 <= i < others.len() implies is_kept(#[trigger] others[i])
            && valid_utf8(others[i]) by {
            assert(others[i] == segments[i + 1]);
        }
        lemma_segments_of_join(others, acc.push(first));
        assert(acc.push(first) + others =~= acc + segments);
    }
}

/// The canonical text of a well-formed parse parses to that parse.
pub proof fn lemma_parse_sanitize(p: Parsed)
    requires
        well_formed(p),
    ensures
        parse_spec(sanitize(p)) == Some(p),
{
    let path = path_text(p.segments);
    let text = sanitize(p);
    let empty = Seq::<u8>::empty();
    let none = Seq::<Seq<u8>>::empty();
    lemma_join_bytes(p.segments);
    assert forall|i: int| 0 <= i < path.len() implies #[trigger] text[i] != QUESTION && text[i]
        != HASH by {
        assert(text[i] == path[i]);
        if p.segments.len() > 0 {
            assert(join(p.segments)[i] != QUESTION);
        }
    }
    match p.query {
        Some(q) => {
            assert(text[path.len() as int] == QUESTION);
        },
        None => {
            assert(text =~= path);
        },
    }
    lemma_scan_to_is(text, 0, QUESTION, HASH, path.len() as int);
    assert(text.subrange(0, path.len() as int) =~= path);
    // the path
    lemma_scan_to_is(path, 0, SLASH, SLASH, 0);
    assert(path.subrange(0, 0) =~= empty);
    assert(valid_utf8(empty));
    assert(decode_text(empty, false) == Some(empty));
    assert(push_segment(none, empty) == none);
    let rest = path.skip(1);
    if p.segments.len() == 0 {
        assert(rest =~= empty);
        assert(piece_end(rest, 0) == 0);
        assert(rest.subrange(0, 0) =~= empty);
        assert(segments_of(rest, none) == Some(none));
        assert(p.segments =~= none);
    } else {
        assert(rest =~= encode(p.segments[0], false) + join(p.segments.skip(1)));
        lemma_segments_of_join(p.segments, none);
        assert(none + p.segments =~= p.segments);
    }
    assert(segments_of(path, none) == Some(p.segments));
    // the query
    match p.query {
        Some(q) => {
            let coded = encode(q, true);
            lemma_encoded_bytes(q, true);
            let from: int = path.len() as int + 1;
            assert forall|i: int| from <= i < text.len() implies #[trigger] text[i] != HASH by {
                assert(text[i] == coded[i - from]);
            }
            lemma_scan_to_is(text, from, HASH, HASH, text.len() as int);
            assert(text.subrange(from, text.len() as int) =~= coded);
            lemma_decode_text_encode(q, true);
        },
        None => {},
    }
}

/// Sanitising is idempotent: the canonical text of a parse parses, and its
/// canonical text is the same.
pub proof fn law_sanitize_idempotent(s: Seq<u8>)
    requires
        parse_spec(s) is Some,
    ensures
        parse_spec(sanitize(parse_spec(s).unwrap())) is Some,
        sanitize(parse_spec(sanitize(parse_spec(s).unwrap())).unwrap()) == sanitize(
            parse_spec(s).unwrap(),
        ),
{
    lemma_parse_well_formed(s);
    lemma_parse_sanitize(parse_spec(s).unwrap());
}

/// No parse holds a segment that is empty, `.` or `..`: a parsed path cannot
/// leave its root.
pub proof fn law_traversal_safe(s: Seq<u8>)
    ensures
        parse_spec(s) matches Some(p) ==> forall|i: int|
            0 <= i < p.segments.len() ==> (#[trigger] p.segments[i]).len() > 0 && !is_dot(
                p.segments[i],
            ) && !is_dot_dot(p.segments[i]),
{
    lemma_parse_well_formed(s);
}

/// A canonical target is its own canonical text.
pub proof fn law_pure_is_identical(s: Seq<u8>)
    requires
        is_canonical(s),
    ensures
        parse_spec(s) matches Some(p) && sanitize(p) == s,
{
    lemma_canonical(s);
}

} // verus!
