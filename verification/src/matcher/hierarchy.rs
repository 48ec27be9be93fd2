//! Matching along a hierarchy, as mathematics: a pattern matches an input at
//! its start or its end, and only at a separator or at the input's edge.

use super::slot::Slot;
use vstd::prelude::*;
use vstd::utf8::encode_utf8;

verus! {

/// `.`, which separates the levels of a domain.
pub const DOMAIN_SEP: u8 = 0x2E;

/// `/`, which separates the segments of a path.
pub const PATH_SEP: u8 = 0x2F;

/// `hay` ends with `p`.
pub open spec fn ends_with(hay: Seq<u8>, p: Seq<u8>) -> bool {
    p.len() <= hay.len() && hay.subrange(hay.len() - p.len(), hay.len() as int) == p
}

/// `hay` starts with `p`.
pub open spec fn starts_with(hay: Seq<u8>, p: Seq<u8>) -> bool {
    p.len() <= hay.len() && hay.subrange(0, p.len() as int) == p
}

/// Pattern `p` matches `hay` as a suffix: `hay` ends with it, and it is the
/// whole of `hay` or a separator stands before it.
pub open spec fn is_suffix_hit(patterns: Seq<Seq<u8>>, hay: Seq<u8>, sep: u8, p: int) -> bool {
    &&& 0 <= p < patterns.len()
    &&& ends_with(hay, patterns[p])
    &&& (patterns[p].len() == hay.len() || hay[hay.len() - patterns[p].len() - 1] == sep)
}

/// Pattern `p` matches `hay` as a prefix: `hay` starts with it, and it is the
/// whole of `hay` or a separator stands after it.
pub open spec fn is_prefix_hit(patterns: Seq<Seq<u8>>, hay: Seq<u8>, sep: u8, p: int) -> bool {
    &&& 0 <= p < patterns.len()
    &&& starts_with(hay, patterns[p])
    &&& (patterns[p].len() == hay.len() || hay[patterns[p].len() as int] == sep)
}

/// Pattern `p` wins over pattern `q`: it is longer, or as long and given
/// earlier.
pub open spec fn wins_over(patterns: Seq<Seq<u8>>, p: int, q: int) -> bool {
    patterns[q].len() < patterns[p].len() || (patterns[q].len() == patterns[p].len() && p <= q)
}

/// Pattern `p` is the suffix match of `hay`: it matches, and it wins over
/// every pattern that matches. So the most specific domain is chosen.
pub open spec fn is_best_suffix(patterns: Seq<Seq<u8>>, hay: Seq<u8>, sep: u8, p: int) -> bool {
    &&& is_suffix_hit(patterns, hay, sep, p)
    &&& forall|q: int| #[trigger] is_suffix_hit(patterns, hay, sep, q) ==> wins_over(patterns, p, q)
}

/// Pattern `p` is the prefix match of `hay`: it matches, and it wins over
/// every pattern that matches. So the longest mounted path is chosen.
pub open spec fn is_best_prefix(patterns: Seq<Seq<u8>>, hay: Seq<u8>, sep: u8, p: int) -> bool {
    &&& is_prefix_hit(patterns, hay, sep, p)
    &&& forall|q: int| #[trigger] is_prefix_hit(patterns, hay, sep, q) ==> wins_over(patterns, p, q)
}

/// A pattern as the prefix matcher registers it: one separator at its end is
/// dropped, unless the pattern is the separator alone or ends with two.
pub open spec fn trim_trailing(p: Seq<u8>, sep: u8) -> Seq<u8> {
    if sep < 0x80 && p.len() > 1 && p[p.len() - 1] == sep && p[p.len() - 2] != sep {
        p.drop_last()
    } else {
        p
    }
}

/// The bytes of the pattern of each entry.
pub open spec fn patterns_of<S>(entries: Seq<(String, S)>) -> Seq<Seq<u8>> {
    Seq::new(entries.len(), |i: int| encode_utf8(entries[i].0@))
}

/// The slot of each entry.
pub open spec fn slots_of(entries: Seq<(String, Slot)>) -> Seq<Slot> {
    Seq::new(entries.len(), |i: int| entries[i].1)
}

/// The pattern of each entry as the prefix matcher registers it.
pub open spec fn trimmed<S>(entries: Seq<(String, S)>, sep: u8) -> Seq<Seq<u8>> {
    Seq::new(entries.len(), |i: int| trim_trailing(encode_utf8(entries[i].0@), sep))
}

/// Each text as the prefix matcher registers it.
pub open spec fn trimmed_texts(texts: Seq<String>, sep: u8) -> Seq<Seq<u8>> {
    Seq::new(texts.len(), |i: int| trim_trailing(encode_utf8(texts[i]@), sep))
}

/// At most one pattern is the suffix match.
pub proof fn lemma_best_suffix_unique(
    patterns: Seq<Seq<u8>>,
    hay: Seq<u8>,
    sep: u8,
    p: int,
    q: int,
)
    requires
        is_best_suffix(patterns, hay, sep, p),
        is_best_suffix(patterns, hay, sep, q),
    ensures
        p == q,
{
}

/// At most one pattern is the prefix match.
pub proof fn lemma_best_prefix_unique(
    patterns: Seq<Seq<u8>>,
    hay: Seq<u8>,
    sep: u8,
    p: int,
    q: int,
)
    requires
        is_best_prefix(patterns, hay, sep, p),
        is_best_prefix(patterns, hay, sep, q),
    ensures
        p == q,
{
}

/// The slot of the suffix match of `hay`, if a pattern matches.
pub open spec fn suffix_answer(patterns: Seq<Seq<u8>>, slots: Seq<Slot>, hay: Seq<u8>, sep: u8)
    -> Option<Slot> {
    if exists|p: int| is_best_suffix(patterns, hay, sep, p) {
        Some(slots[choose|p: int| is_best_suffix(patterns, hay, sep, p)])
    } else {
        None
    }
}

/// The pattern index and the end of the prefix match of `hay`, if a pattern
/// matches.
pub open spec fn prefix_answer(patterns: Seq<Seq<u8>>, hay: Seq<u8>, sep: u8) -> Option<
    (int, int),
> {
    if exists|p: int| is_best_prefix(patterns, hay, sep, p) {
        let p = choose|p: int| is_best_prefix(patterns, hay, sep, p);
        Some((p, patterns[p].len() as int))
    } else {
        None
    }
}

/// The suffix match decides the answer.
pub proof fn lemma_suffix_answer(
    patterns: Seq<Seq<u8>>,
    slots: Seq<Slot>,
    hay: Seq<u8>,
    sep: u8,
    found: Option<int>,
)
    requires
        found matches Some(p) ==> is_best_suffix(patterns, hay, sep, p),
        found is None ==> forall|q: int| !#[trigger] is_suffix_hit(patterns, hay, sep, q),
    ensures
        suffix_answer(patterns, slots, hay, sep) == match found {
            Some(p) => Some(slots[p]),
            None => None,
        },
{
    match found {
        Some(p) => {
            let best = choose|q: int| is_best_suffix(patterns, hay, sep, q);
            lemma_best_suffix_unique(patterns, hay, sep, p, best);
        },
        None => {},
    }
}

/// The prefix match decides the answer.
pub proof fn lemma_prefix_answer(patterns: Seq<Seq<u8>>, hay: Seq<u8>, sep: u8, found: Option<int>)
    requires
        found matches Some(p) ==> is_best_prefix(patterns, hay, sep, p),
        found is None ==> forall|q: int| !#[trigger] is_prefix_hit(patterns, hay, sep, q),
    ensures
        prefix_answer(patterns, hay, sep) == match found {
            Some(p) => Some((p, patterns[p].len() as int)),
            None => None,
        },
{
    match found {
        Some(p) => {
            let best = choose|q: int| is_best_prefix(patterns, hay, sep, q);
            lemma_best_prefix_unique(patterns, hay, sep, p, best);
        },
        None => {},
    }
}

} // verus!
