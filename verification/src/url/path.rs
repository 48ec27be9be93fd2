//! The parsed request target: decoded segments, decoded query, and the
//! canonical text.

use super::border::{find_border, find_slashes, positions_of, slashes_of};
use super::grammar::{
    all_plain, encode, encode_byte, hex_digit, is_canonical, is_canonical_path, is_canonical_piece,
    is_canonical_rest, is_plain, join, lemma_scan_to_bounds, lemma_scan_to_is, parse_spec,
    path_end, path_text, piece_end, push_segment, sanitize, scan_to, segments_of, Parsed, HASH,
    PERCENT, QUESTION, SLASH,
};
use super::segment::{
    all_wf, check_segment, lemma_decode_nonempty, models, plain, read_segment, CheckResult,
    ParseError, Segment,
};
use super::laws::lemma_canonical;
use crate::text::ascii_string;
use vstd::prelude::*;

use vstd::utf8::encode_utf8;

verus! {

/// A scan of what is left after `k` bytes ends where the scan from `k` ends.
pub proof fn lemma_scan_skip(s: Seq<u8>, k: int, a: u8, b: u8)
    requires
        0 <= k <= s.len(),
    ensures
        scan_to(s.skip(k), 0, a, b) + k == scan_to(s, k, a, b),
{
    lemma_scan_to_bounds(s, k, a, b);
    let e = scan_to(s, k, a, b);
    assert forall|i: int| 0 <= i < e - k implies #[trigger] s.skip(k)[i] != a && s.skip(k)[i]
        != b by {
        assert(s[k + i] != a && s[k + i] != b);
    }
    lemma_scan_to_is(s.skip(k), 0, a, b, e - k);
}

/// Between one listed `/` and the next there is no other.
pub proof fn lemma_next_slash(url: Seq<u8>, v: Seq<usize>, limit: int, k: int)
    requires
        0 <= limit <= url.len(),
        slashes_of(url, v, limit),
        0 <= k <= v.len(),
    ensures
        ({
            let start = if k == 0 {
                0
            } else {
                v[k - 1] + 1
            };
            let end = if k < v.len() {
                v[k] as int
            } else {
                limit
            };
            &&& 0 <= start <= end <= limit
            &&& piece_end(url.subrange(0, limit), start) == end
        }),
{
    let start: int = if k == 0 {
        0
    } else {
        v[k - 1] + 1
    };
    let end: int = if k < v.len() {
        v[k] as int
    } else {
        limit
    };
    let path = url.subrange(0, limit);
    if k > 0 {
        assert(v[k - 1] < limit);
    }
    assert forall|i: int| start <= i < end implies #[trigger] path[i] != SLASH by {
        if url[i] == SLASH {
            let m = choose|m: int| 0 <= m < v.len() && v[m] == i;
            if m < k {
                if m < k - 1 {
                    assert(v[m] < v[k - 1]);
                }
            } else {
                if m > k {
                    assert(v[k] < v[m]);
                }
            }
        }
    }
    lemma_scan_to_is(path, start, SLASH, SLASH, end);
}

/// Every segment is a range of the raw text.
pub open spec fn all_borrowed(segments: Seq<Segment>) -> bool {
    forall|i: int| 0 <= i < segments.len() ==> (#[trigger] segments[i]) is Borrowed
}

/// Reads the pieces of the path `bytes[..limit]`, whose `/` are at
/// `slashes`: the retained segments, and whether the path is canonical.
pub fn read_pieces(bytes: &[u8], limit: usize, slashes: &[usize]) -> (r: Result<
    (Vec<Segment>, bool),
    ParseError,
>)
    requires
        limit <= bytes@.len(),
        slashes_of(bytes@, slashes@, limit as int),
    ensures
        match segments_of(bytes@.subrange(0, limit as int), seq![]) {
            None => r is Err,
            Some(segs) => r matches Ok(found) && models(found.0@, bytes@) == segs && all_wf(
                found.0@,
                bytes@,
            ) && found.1 == is_canonical_path(bytes@.subrange(0, limit as int)) && (found.1
                ==> all_borrowed(found.0@)),
        },
{
    let ghost path = bytes@.subrange(0, limit as int);
    let mut segments: Vec<Segment> = Vec::new();
    let mut start: usize = 0;
    let mut k: usize = 0;
    let mut canon: bool = limit > 0 && bytes[0] == SLASH;
    assert(path.skip(0) =~= path);
    assert(models(segments@, bytes@) =~= Seq::<Seq<u8>>::empty());
    loop
        invariant
            limit <= bytes@.len(),
            path == bytes@.subrange(0, limit as int),
            slashes_of(bytes@, slashes@, limit as int),
            k <= slashes@.len(),
            start <= limit,
            start == if k == 0 {
                0
            } else {
                slashes@[k - 1] + 1
            },
            all_wf(segments@, bytes@),
            segments_of(path, seq![]) == segments_of(
                path.skip(start as int),
                models(segments@, bytes@),
            ),
            !canon ==> !is_canonical_path(path),
            canon ==> all_borrowed(segments@),
            canon ==> limit >= 1 && path[0] == SLASH && (k == 0 || is_canonical_path(path) == (limit
                == 1 || is_canonical_rest(path.skip(start as int)))),
        decreases slashes@.len() - k,
    {
        let ghost rest = path.skip(start as int);
        let ghost acc = models(segments@, bytes@);
        let ghost held = segments@;
        let last: bool = k == slashes.len();
        let end: usize = if last {
            limit
        } else {
            slashes[k]
        };
        proof {
            lemma_next_slash(bytes@, slashes@, limit as int, k as int);
            lemma_scan_skip(path, start as int, SLASH, SLASH);
            assert(rest.subrange(0, end - start) =~= bytes@.subrange(start as int, end as int));
            if !last {
                assert(rest.skip(end - start + 1) =~= path.skip(end + 1));
            }
        }
        let seg = match read_segment(bytes, start, end, false) {
            Ok(seg) => seg,
            Err(e) => {
                return Err(e);
            },
        };
        let ghost decoded = seg.bytes(bytes@);
        let check = check_segment(bytes, &seg);
        proof {
            if canon && k == 0 {
                lemma_scan_to_bounds(path, 0, SLASH, SLASH);
                assert(end == 0);
            }
            if end == start {
                assert(bytes@.subrange(start as int, end as int) =~= Seq::<u8>::empty());
                assert(decoded.len() == 0);
            }
        }
        if canon && k > 0 && limit != 1 {
            let piece_ok: bool = matches!(seg, Segment::Borrowed { .. }) && matches!(
                check,
                CheckResult::Keep
            );
            proof {
                let piece = rest.subrange(0, end - start);
                if seg is Borrowed {
                    assert(decoded == piece);
                }
                assert(piece_ok == is_canonical_piece(piece));
            }
            if !piece_ok {
                canon = false;
            }
        }
        match check {
            CheckResult::Empty => {},
            CheckResult::Pop => {
                let _ = segments.pop();
                proof {
                    if held.len() > 0 {
                        assert(models(segments@, bytes@) =~= acc.drop_last());
                    } else {
                        assert(models(segments@, bytes@) =~= acc);
                    }
                }
            },
            CheckResult::Keep => {
                segments.push(seg);
                proof {
                    assert(models(segments@, bytes@) =~= acc.push(decoded));
                }
            },
        }
        assert(models(segments@, bytes@) == push_segment(acc, decoded));
        if last {
            proof {
                if canon && k == 0 {
                    assert(piece_end(path, 0) == limit);
                    lemma_scan_to_bounds(path, 0, SLASH, SLASH);
                }
            }
            return Ok((segments, canon));
        }
        proof {
            if canon && k == 0 {
                lemma_scan_to_bounds(path, 0, SLASH, SLASH);
                assert(end == 0);
            }
        }
        start = end + 1;
        k = k + 1;
    }
}

/// The result of parsing one request target. It is never changed after it
/// is made.
#[derive(Debug)]
pub struct UrlPath {
    raw: String,
    segments: Vec<Segment>,
    query: Option<Segment>,
    pure: bool,
}

impl UrlPath {
    /// The raw text.
    pub closed spec fn text(&self) -> Seq<char> {
        self.raw@
    }

    /// The decoded segments and query, as bytes.
    pub closed spec fn parsed(&self) -> Parsed {
        Parsed {
            segments: models(self.segments@, encode_utf8(self.raw@)),
            query: match self.query {
                Some(q) => Some(q.bytes(encode_utf8(self.raw@))),
                None => None,
            },
        }
    }

    /// The raw text was already canonical.
    pub closed spec fn is_pure(&self) -> bool {
        self.pure
    }

    /// Whether segment `i` is a range of the raw text.
    pub closed spec fn is_borrowed(&self, i: int) -> bool {
        self.segments@[i] is Borrowed
    }

    #[verifier::type_invariant]
    spec fn inv(&self) -> bool {
        let raw = encode_utf8(self.raw@);
        &&& all_wf(self.segments@, raw)
        &&& self.query matches Some(q) ==> q.wf(raw)
        &&& parse_spec(raw) == Some(self.parsed())
        &&& self.pure == is_canonical(raw)
        &&& self.pure ==> all_borrowed(self.segments@)
    }

    /// Parses a request target: the segments between `/`, percent-decoded and
    /// with `.` and `..` resolved, and the decoded query. Fails where the
    /// target is outside the grammar, an escape is malformed, or decoded
    /// bytes are not UTF-8.
    pub fn parse(url: &str) -> (r: Result<UrlPath, ParseError>)
        ensures
            r is Err <==> parse_spec(encode_utf8(url@)) is None,
            r matches Ok(p) ==> p.text() == url@ && parse_spec(encode_utf8(url@)) == Some(
                p.parsed(),
            ) && p.is_pure() == is_canonical(encode_utf8(url@)),
            r matches Ok(p) ==> (p.is_pure() ==> forall|i: int|
                0 <= i < p.parsed().segments.len() ==> p.is_borrowed(i)),
    {
        let bytes = url.as_bytes();
        let ghost raw = bytes@;
        let n: usize = bytes.len();
        let (query_loc, hash_loc) = find_border(bytes);
        let limit: usize = match query_loc {
            Some(q) => q,
            None => match hash_loc {
                Some(h) => h,
                None => n,
            },
        };
        let tail: usize = match hash_loc {
            Some(h) => h,
            None => n,
        };
        proof {
            lemma_scan_to_bounds(raw, 0, QUESTION, HASH);
            lemma_scan_to_bounds(raw, 0, HASH, HASH);
            if query_loc is None && hash_loc is Some {
                lemma_scan_to_is(raw, 0, HASH, HASH, path_end(raw));
            }
            assert(limit == path_end(raw));
            assert(limit <= tail);
        }
        let slashes = find_slashes(bytes, Some(limit));
        let (segments, canon) = match read_pieces(bytes, limit, slashes.as_slice()) {
            Ok(found) => found,
            Err(e) => {
                return Err(e);
            },
        };
        let mut query: Option<Segment> = None;
        let mut query_ok: bool = hash_loc.is_none();
        match query_loc {
            Some(q) => {
                proof {
                    lemma_scan_to_is(raw, q + 1, HASH, HASH, tail as int);
                }
                let ghost text = raw.subrange(q + 1, tail as int);
                let seg = match read_segment(bytes, q + 1, tail, true) {
                    Ok(seg) => seg,
                    Err(e) => {
                        return Err(e);
                    },
                };
                proof {
                    if tail > q + 1 {
                        lemma_decode_nonempty(text, true);
                    } else {
                        assert(text =~= Seq::<u8>::empty());
                    }
                    let whole = raw.subrange(q + 1, raw.len() as int);
                    if tail < n {
                        assert(whole[tail - (q + 1)] == HASH);
                        assert(!all_plain(whole, true));
                    } else {
                        assert(whole =~= text);
                    }
                }
                if tail == q + 1 {
                    query_ok = false;
                } else {
                    query_ok = matches!(seg, Segment::Borrowed { .. }) && tail == n;
                    query = Some(seg);
                }
            },
            None => {},
        }
        let pure: bool = canon && query_ok;
        let path = UrlPath { raw: url.to_owned(), segments, query, pure };
        Ok(path)
    }

    /// The raw text, unchanged.
    pub fn total(&self) -> (r: &str)
        ensures
            r@ == self.text(),
    {
        self.raw.as_str()
    }

    /// Whether the raw text was already canonical.
    pub fn pure(&self) -> (r: bool)
        ensures
            r == self.is_pure(),
    {
        self.pure
    }

    /// The decoded segments, in order.
    pub fn parts(&self) -> (r: Vec<String>)
        ensures
            r@.len() == self.parsed().segments.len(),
            forall|i: int|
                0 <= i < r@.len() ==> encode_utf8(#[trigger] r@[i]@) == self.parsed().segments[i],
    {
        proof {
            use_type_invariant(self);
        }
        let raw = self.raw.as_str().as_bytes();
        let mut r: Vec<String> = Vec::new();
        let mut i: usize = 0;
        while i < self.segments.len()
            invariant
                i <= self.segments@.len(),
                raw@ == encode_utf8(self.raw@),
                all_wf(self.segments@, raw@),
                r@.len() == i,
                forall|j: int|
                    0 <= j < i ==> encode_utf8(#[trigger] r@[j]@) == self.segments@[j].bytes(raw@),
            decreases self.segments@.len() - i,
        {
            let s = materialize(raw, &self.segments[i]);
            r.push(s);
            i = i + 1;
        }
        r
    }

    /// The decoded query, if there is one.
    pub fn query(&self) -> (r: Option<String>)
        ensures
            r is Some == self.parsed().query is Some,
            r matches Some(s) ==> encode_utf8(s@) == self.parsed().query.unwrap(),
    {
        proof {
            use_type_invariant(self);
        }
        let raw = self.raw.as_str().as_bytes();
        match &self.query {
            Some(q) => Some(materialize(raw, q)),
            None => None,
        }
    }

    /// The bytes of the canonical path, without the query.
    fn path_bytes(&self) -> (out: Vec<u8>)
        ensures
            out@ == path_text(self.parsed().segments),
            is_ascii(out@),
    {
        proof {
            use_type_invariant(self);
        }
        let raw = self.raw.as_str().as_bytes();
        let ghost segs = models(self.segments@, raw@);
        let mut out: Vec<u8> = Vec::new();
        if self.segments.len() == 0 {
            out.push(SLASH);
        }
        let mut i: usize = 0;
        assert(segs.subrange(0, 0) =~= Seq::<Seq<u8>>::empty());
        while i < self.segments.len()
            invariant
                i <= self.segments@.len(),
                raw@ == encode_utf8(self.raw@),
                segs == models(self.segments@, raw@),
                all_wf(self.segments@, raw@),
                is_ascii(out@),
                self.segments@.len() > 0 ==> out@ == join(segs.subrange(0, i as int)),
                self.segments@.len() == 0 ==> out@ == seq![SLASH],
            decreases self.segments@.len() - i,
        {
            let ghost before = out@;
            out.push(SLASH);
            escape_segment(&mut out, raw, &self.segments[i], false);
            proof {
                lemma_join_push(segs.subrange(0, i as int), segs[i as int]);
                assert(segs.subrange(0, i as int).push(segs[i as int]) =~= segs.subrange(
                    0,
                    i + 1,
                ));
                assert(before.push(SLASH) =~= before + seq![SLASH]);
            }
            i = i + 1;
        }
        assert(segs.subrange(0, segs.len() as int) =~= segs);
        out
    }

    /// The canonical path without the query: the text that routes are
    /// matched against.
    pub fn sanitized_segments(&self) -> (s: String)
        ensures
            encode_utf8(s@) == path_text(self.parsed().segments),
    {
        let out = self.path_bytes();
        ascii_string(out.as_slice(), 0, out.len())
    }

    /// The canonical text: the segments joined by `/`, then `?` and the query,
    /// with every byte outside the grammar percent-encoded. For a pure path it
    /// is the raw text.
    pub fn sanitized_path(&self) -> (s: String)
        ensures
            encode_utf8(s@) == sanitize(self.parsed()),
            self.is_pure() ==> s@ == self.text(),
    {
        proof {
            use_type_invariant(self);
        }
        let raw = self.raw.as_str().as_bytes();
        if self.pure {
            proof {
                lemma_canonical(raw@);
            }
            return self.raw.clone();
        }
        let mut out = self.path_bytes();
        match &self.query {
            Some(q) => {
                let ghost before = out@;
                out.push(QUESTION);
                escape_segment(&mut out, raw, q, true);
                assert(out@ =~= before + (seq![QUESTION] + encode(q.bytes(raw@), true)));
            },
            None => {
                assert(out@ + Seq::<u8>::empty() =~= out@);
            },
        }
        ascii_string(out.as_slice(), 0, out.len())
    }
}

/// A request path could not be sanitised.
#[derive(Debug, Clone, Copy, PartialEq, Eq, Structural)]
pub struct SanitizationError;

/// The canonical text of a request target, or an error where the target is
/// outside the grammar.
pub fn sanitize_request_path(target: &str) -> (r: Result<String, SanitizationError>)
    ensures
        r is Err <==> parse_spec(encode_utf8(target@)) is None,
        r matches Ok(s) ==> encode_utf8(s@) == sanitize(parse_spec(encode_utf8(target@)).unwrap()),
{
    match UrlPath::parse(target) {
        Ok(path) => Ok(path.sanitized_path()),
        Err(_) => Err(SanitizationError),
    }
}

impl std::str::FromStr for UrlPath {
    type Err = ParseError;

    fn from_str(s: &str) -> (r: Result<Self, Self::Err>)
        ensures
            r is Err <==> parse_spec(encode_utf8(s@)) is None,
            r matches Ok(p) ==> p.text() == s@ && parse_spec(encode_utf8(s@)) == Some(p.parsed())
                && p.is_pure() == is_canonical(encode_utf8(s@)),
            r matches Ok(p) ==> (p.is_pure() ==> forall|i: int|
                0 <= i < p.parsed().segments.len() ==> p.is_borrowed(i)),
    {
        UrlPath::parse(s)
    }
}

/// A parsed path together with the text it was parsed from.
#[derive(Debug)]
pub struct OwnedUrlPath(UrlPath);

impl OwnedUrlPath {
    /// The parsed path.
    pub closed spec fn path(&self) -> UrlPath {
        self.0
    }

    /// Parses `path` and keeps it.
    pub fn new(path: String) -> (r: Result<OwnedUrlPath, ParseError>)
        ensures
            r is Err <==> parse_spec(encode_utf8(path@)) is None,
            r matches Ok(o) ==> o.path().text() == path@ && parse_spec(encode_utf8(path@)) == Some(
                o.path().parsed(),
            ) && o.path().is_pure() == is_canonical(encode_utf8(path@)),
            r matches Ok(o) ==> (o.path().is_pure() ==> forall|i: int|
                0 <= i < o.path().parsed().segments.len() ==> o.path().is_borrowed(i)),
    {
        match UrlPath::parse(path.as_str()) {
            Ok(p) => Ok(OwnedUrlPath(p)),
            Err(e) => Err(e),
        }
    }

    /// The parsed path.
    pub fn inner(&self) -> (r: &UrlPath)
        ensures
            *r == self.path(),
    {
        &self.0
    }
}

/// All bytes are ASCII.
pub open spec fn is_ascii(s: Seq<u8>) -> bool {
    forall|i: int| 0 <= i < s.len() ==> #[trigger] s[i] < 0x80
}

/// Encoding distributes over appending one byte.
pub proof fn lemma_encode_push(s: Seq<u8>, b: u8, query: bool)
    ensures
        encode(s.push(b), query) == encode(s, query) + encode_byte(b, query),
    decreases s.len(),
{
    if s.len() == 0 {
        assert(s.push(b).skip(1) =~= Seq::<u8>::empty());
        assert(s.push(b)[0] == b);
        assert(encode(s.push(b).skip(1), query) =~= Seq::<u8>::empty());
        assert(encode(s, query) =~= Seq::<u8>::empty());
        assert(encode(s.push(b), query) =~= encode_byte(b, query) + Seq::<u8>::empty());
        assert(encode(s, query) + encode_byte(b, query) =~= encode_byte(b, query));
        assert(encode_byte(b, query) + Seq::<u8>::empty() =~= encode_byte(b, query));
    } else {
        lemma_encode_push(s.skip(1), b, query);
        assert(s.push(b).skip(1) =~= s.skip(1).push(b));
        assert(encode(s.push(b), query) =~= encode(s, query) + encode_byte(b, query));
    }
}

/// Joining distributes over appending one segment.
pub proof fn lemma_join_push(segments: Seq<Seq<u8>>, seg: Seq<u8>)
    ensures
        join(segments.push(seg)) == join(segments) + seq![SLASH] + encode(seg, false),
    decreases segments.len(),
{
    if segments.len() == 0 {
        assert(segments.push(seg).skip(1) =~= Seq::<Seq<u8>>::empty());
        assert(join(segments.push(seg).skip(1)) =~= Seq::<u8>::empty());
    } else {
        lemma_join_push(segments.skip(1), seg);
        assert(segments.push(seg).skip(1) =~= segments.skip(1).push(seg));
    }
    assert(join(segments.push(seg)) =~= join(segments) + seq![SLASH] + encode(seg, false));
}

/// The upper-case hexadecimal digit of a value below sixteen.
pub fn hex_digit_of(n: u8) -> (r: u8)
    requires
        n < 16,
    ensures
        r == hex_digit(n as int),
        r < 0x80,
{
    if n < 10 {
        0x30 + n
    } else {
        0x41 + n - 10
    }
}

/// Appends the percent-encoding of `bytes[start..end]` to `out`.
pub fn escape(out: &mut Vec<u8>, bytes: &[u8], start: usize, end: usize, query: bool)
    requires
        start <= end <= bytes@.len(),
        is_ascii(old(out)@),
    ensures
        final(out)@ == old(out)@ + encode(bytes@.subrange(start as int, end as int), query),
        is_ascii(final(out)@),
{
    let mut i: usize = start;
    assert(bytes@.subrange(start as int, start as int) =~= Seq::<u8>::empty());
    assert(old(out)@ + Seq::<u8>::empty() =~= old(out)@);
    while i < end
        invariant
            start <= i <= end <= bytes@.len(),
            out@ == old(out)@ + encode(bytes@.subrange(start as int, i as int), query),
            is_ascii(out@),
        decreases end - i,
    {
        let b: u8 = bytes[i];
        let ghost before = out@;
        let ghost done = bytes@.subrange(start as int, i as int);
        if plain(b, query) {
            out.push(b);
            assert(out@ =~= before + encode_byte(b, query));
        } else {
            out.push(PERCENT);
            out.push(hex_digit_of(b / 16));
            out.push(hex_digit_of(b % 16));
            assert(out@ =~= before + encode_byte(b, query));
        }
        proof {
            lemma_encode_push(done, b, query);
            assert(done.push(b) =~= bytes@.subrange(start as int, i + 1));
            assert(old(out)@ + (encode(done, query) + encode_byte(b, query)) =~= (old(out)@
                + encode(done, query)) + encode_byte(b, query));
        }
        i = i + 1;
    }
}

/// Appends the percent-encoding of a segment to `out`.
pub fn escape_segment(out: &mut Vec<u8>, raw: &[u8], seg: &Segment, query: bool)
    requires
        seg.wf(raw@),
        is_ascii(old(out)@),
    ensures
        final(out)@ == old(out)@ + encode(seg.bytes(raw@), query),
        is_ascii(final(out)@),
{
    match seg {
        Segment::Borrowed { start, end } => escape(out, raw, *start, *end, query),
        Segment::Owned(s) => {
            let text = s.as_str().as_bytes();
            assert(text@.subrange(0, text@.len() as int) =~= text@);
            escape(out, text, 0, text.len(), query)
        },
    }
}

/// The decoded text of a segment.
pub fn materialize(raw: &[u8], seg: &Segment) -> (s: String)
    requires
        seg.wf(raw@),
    ensures
        encode_utf8(s@) == seg.bytes(raw@),
{
    match seg {
        Segment::Borrowed { start, end } => {
            assert forall|i: int| *start <= i < *end implies #[trigger] raw@[i] < 0x80 by {
                assert(is_plain(raw@.subrange(*start as int, *end as int)[i - *start], true));
            }
            ascii_string(raw, *start, *end)
        },
        Segment::Owned(s) => s.clone(),
    }
}

} // verus!
