//! What holds of the hierarchical matchers for every set of patterns and
//! every input.

use super::hierarchy::{
    ends_with, is_best_prefix, is_best_suffix, is_prefix_hit, is_suffix_hit, prefix_answer,
    starts_with, suffix_answer, wins_over,
};
use super::composite::first_of;
use super::domain_levels::{registers, DomainLevelsStrategy};
use super::hierarchy::DOMAIN_SEP;
use super::slot::Matcher;
use super::exact::lookup_last;
use super::pattern::regex_answer;
use super::slot::Slot;
use vstd::prelude::*;
use vstd::utf8::encode_utf8;

verus! {

/// Among finitely many patterns of which one qualifies, one wins over all
/// that qualify.
pub proof fn lemma_winner_exists(
    patterns: Seq<Seq<u8>>,
    hit: spec_fn(int) -> bool,
    n: int,
    q: int,
)
    requires
        0 <= q < n <= patterns.len(),
        hit(q),
    ensures
        exists|p: int|
            0 <= p < n && #[trigger] hit(p) && forall|r: int|
                0 <= r < n && #[trigger] hit(r) ==> wins_over(patterns, p, r),
    decreases n,
{
    let last = n - 1;
    if exists|r: int| 0 <= r < last && #[trigger] hit(r) {
        let r0 = choose|r: int| 0 <= r < last && #[trigger] hit(r);
        lemma_winner_exists(patterns, hit, last, r0);
        let p0 = choose|p: int|
            0 <= p < last && #[trigger] hit(p) && forall|r: int|
                0 <= r < last && #[trigger] hit(r) ==> wins_over(patterns, p, r);
        if hit(last) && patterns[last].len() > patterns[p0].len() {
            assert(hit(last) && forall|r: int|
                0 <= r < n && #[trigger] hit(r) ==> wins_over(patterns, last, r)) by {
                assert forall|r: int| 0 <= r < n && #[trigger] hit(r) implies wins_over(
                    patterns,
                    last,
                    r,
                ) by {
                    if r < last {
                        assert(wins_over(patterns, p0, r));
                    }
                }
            }
        } else {
            assert(hit(p0) && forall|r: int|
                0 <= r < n && #[trigger] hit(r) ==> wins_over(patterns, p0, r)) by {
                assert forall|r: int| 0 <= r < n && #[trigger] hit(r) implies wins_over(
                    patterns,
                    p0,
                    r,
                ) by {
                    if r < last {
                        assert(wins_over(patterns, p0, r));
                    }
                }
            }
        }
    } else {
        assert(q == last);
        assert(hit(last) && forall|r: int|
            0 <= r < n && #[trigger] hit(r) ==> wins_over(patterns, last, r));
    }
}

/// Where a pattern matches as a suffix, one is the suffix match.
pub proof fn lemma_best_suffix_exists(patterns: Seq<Seq<u8>>, hay: Seq<u8>, sep: u8, q: int)
    requires
        is_suffix_hit(patterns, hay, sep, q),
    ensures
        exists|p: int| is_best_suffix(patterns, hay, sep, p),
{
    let hit = |p: int| is_suffix_hit(patterns, hay, sep, p);
    lemma_winner_exists(patterns, hit, patterns.len() as int, q);
    let p = choose|p: int|
        0 <= p < patterns.len() && #[trigger] hit(p) && forall|r: int|
            0 <= r < patterns.len() && #[trigger] hit(r) ==> wins_over(patterns, p, r);
    assert(is_best_suffix(patterns, hay, sep, p)) by {
        assert forall|r: int| #[trigger] is_suffix_hit(patterns, hay, sep, r) implies wins_over(
            patterns,
            p,
            r,
        ) by {
            assert(hit(r));
        }
    }
}

/// Where a pattern matches as a prefix, one is the prefix match.
pub proof fn lemma_best_prefix_exists(patterns: Seq<Seq<u8>>, hay: Seq<u8>, sep: u8, q: int)
    requires
        is_prefix_hit(patterns, hay, sep, q),
    ensures
        exists|p: int| is_best_prefix(patterns, hay, sep, p),
{
    let hit = |p: int| is_prefix_hit(patterns, hay, sep, p);
    lemma_winner_exists(patterns, hit, patterns.len() as int, q);
    let p = choose|p: int|
        0 <= p < patterns.len() && #[trigger] hit(p) && forall|r: int|
            0 <= r < patterns.len() && #[trigger] hit(r) ==> wins_over(patterns, p, r);
    assert(is_best_prefix(patterns, hay, sep, p)) by {
        assert forall|r: int| #[trigger] is_prefix_hit(patterns, hay, sep, r) implies wins_over(
            patterns,
            p,
            r,
        ) by {
            assert(hit(r));
        }
    }
}

/// A pattern matches as a suffix exactly when the input is the pattern or
/// ends with a separator and the pattern.
pub proof fn lemma_suffix_hit_means(patterns: Seq<Seq<u8>>, hay: Seq<u8>, sep: u8, p: int)
    requires
        0 <= p < patterns.len(),
    ensures
        is_suffix_hit(patterns, hay, sep, p) <==> (hay == patterns[p] || ends_with(
            hay,
            seq![sep] + patterns[p],
        )),
{
    let pat = patterns[p];
    let longer = seq![sep] + pat;
    if is_suffix_hit(patterns, hay, sep, p) {
        if pat.len() == hay.len() {
            assert(hay.subrange(0, hay.len() as int) =~= hay);
        } else {
            let s = hay.len() - pat.len();
            assert(hay.subrange(s - 1, hay.len() as int) =~= longer);
        }
    }
    if hay == pat {
        assert(hay.subrange(0, hay.len() as int) =~= hay);
    }
    if ends_with(hay, longer) {
        let s = hay.len() - pat.len();
        assert(hay.subrange(s - 1, hay.len() as int)[0] == sep);
        assert(hay.subrange(s, hay.len() as int) =~= hay.subrange(s - 1, hay.len() as int).skip(
            1,
        ));
        assert(longer.skip(1) =~= pat);
    }
}

/// A pattern matches as a prefix exactly when the input is the pattern or
/// starts with the pattern and a separator.
pub proof fn lemma_prefix_hit_means(patterns: Seq<Seq<u8>>, hay: Seq<u8>, sep: u8, p: int)
    requires
        0 <= p < patterns.len(),
    ensures
        is_prefix_hit(patterns, hay, sep, p) <==> (hay == patterns[p] || starts_with(
            hay,
            patterns[p] + seq![sep],
        )),
{
    let pat = patterns[p];
    let longer = pat + seq![sep];
    if is_prefix_hit(patterns, hay, sep, p) {
        if pat.len() == hay.len() {
            assert(hay.subrange(0, hay.len() as int) =~= hay);
        } else {
            assert(hay.subrange(0, pat.len() as int + 1) =~= longer);
        }
    }
    if hay == pat {
        assert(hay.subrange(0, hay.len() as int) =~= hay);
    }
    if starts_with(hay, longer) {
        assert(hay.subrange(0, pat.len() as int + 1)[pat.len() as int] == sep);
        assert(hay.subrange(0, pat.len() as int) =~= hay.subrange(0, pat.len() as int + 1).drop_last());
        assert(longer.drop_last() =~= pat);
    }
}

/// The boundary rule of the suffix matcher: an input is matched exactly when
/// it is a registered pattern, or ends with a separator followed by one. An
/// input that merely ends with the letters of a pattern is not matched.
pub proof fn law_suffix_boundary(patterns: Seq<Seq<u8>>, slots: Seq<Slot>, hay: Seq<u8>, sep: u8)
    ensures
        suffix_answer(patterns, slots, hay, sep) is Some <==> exists|p: int|
            0 <= p < patterns.len() && (hay == #[trigger] patterns[p] || ends_with(
                hay,
                seq![sep] + patterns[p],
            )),
{
    if suffix_answer(patterns, slots, hay, sep) is Some {
        let p = choose|p: int| is_best_suffix(patterns, hay, sep, p);
        lemma_suffix_hit_means(patterns, hay, sep, p);
    }
    if exists|p: int|
        0 <= p < patterns.len() && (hay == #[trigger] patterns[p] || ends_with(
            hay,
            seq![sep] + patterns[p],
        )) {
        let p = choose|p: int|
            0 <= p < patterns.len() && (hay == #[trigger] patterns[p] || ends_with(
                hay,
                seq![sep] + patterns[p],
            ));
        lemma_suffix_hit_means(patterns, hay, sep, p);
        lemma_best_suffix_exists(patterns, hay, sep, p);
    }
}

/// The boundary rule of the prefix matcher: an input is matched exactly when
/// it is a registered pattern, or starts with one followed by a separator.
pub proof fn law_prefix_boundary(patterns: Seq<Seq<u8>>, hay: Seq<u8>, sep: u8)
    ensures
        prefix_answer(patterns, hay, sep) is Some <==> exists|p: int|
            0 <= p < patterns.len() && (hay == #[trigger] patterns[p] || starts_with(
                hay,
                patterns[p] + seq![sep],
            )),
{
    if prefix_answer(patterns, hay, sep) is Some {
        let p = choose|p: int| is_best_prefix(patterns, hay, sep, p);
        lemma_prefix_hit_means(patterns, hay, sep, p);
    }
    if exists|p: int|
        0 <= p < patterns.len() && (hay == #[trigger] patterns[p] || starts_with(
            hay,
            patterns[p] + seq![sep],
        )) {
        let p = choose|p: int|
            0 <= p < patterns.len() && (hay == #[trigger] patterns[p] || starts_with(
                hay,
                patterns[p] + seq![sep],
            ));
        lemma_prefix_hit_means(patterns, hay, sep, p);
        lemma_best_prefix_exists(patterns, hay, sep, p);
    }
}

/// The longest suffix wins: where pattern `q` matches, the answer is the slot
/// of a matching pattern that is at least as long as `q`, and of the first
/// such pattern that was registered.
pub proof fn law_longest_suffix_wins(
    patterns: Seq<Seq<u8>>,
    slots: Seq<Slot>,
    hay: Seq<u8>,
    sep: u8,
    q: int,
)
    requires
        is_suffix_hit(patterns, hay, sep, q),
    ensures
        exists|p: int|
            #[trigger] is_suffix_hit(patterns, hay, sep, p) && wins_over(patterns, p, q)
                && suffix_answer(patterns, slots, hay, sep) == Some(slots[p]),
{
    lemma_best_suffix_exists(patterns, hay, sep, q);
    let p = choose|p: int| is_best_suffix(patterns, hay, sep, p);
    assert(is_suffix_hit(patterns, hay, sep, p) && wins_over(patterns, p, q));
}

/// The longest prefix wins: where pattern `q` matches, the answer is a
/// matching pattern that is at least as long as `q`, and the first such
/// pattern that was registered.
pub proof fn law_longest_prefix_wins(patterns: Seq<Seq<u8>>, hay: Seq<u8>, sep: u8, q: int)
    requires
        is_prefix_hit(patterns, hay, sep, q),
    ensures
        exists|p: int|
            #[trigger] is_prefix_hit(patterns, hay, sep, p) && wins_over(patterns, p, q)
                && prefix_answer(patterns, hay, sep) == Some((p, patterns[p].len() as int)),
{
    lemma_best_prefix_exists(patterns, hay, sep, q);
    let p = choose|p: int| is_best_prefix(patterns, hay, sep, p);
    assert(is_prefix_hit(patterns, hay, sep, p) && wins_over(patterns, p, q));
}

/// A lookup answers with a slot that was registered.
pub proof fn lemma_lookup_registered(entries: Seq<(Seq<char>, Slot)>, key: Seq<char>)
    ensures
        lookup_last(entries, key) matches Some(slot) ==> exists|i: int|
            0 <= i < entries.len() && (#[trigger] entries[i]).1 == slot,
    decreases entries.len(),
{
    if entries.len() > 0 {
        if entries.last().0 == key {
            assert(entries[entries.len() - 1].1 == entries.last().1);
        } else {
            lemma_lookup_registered(entries.drop_last(), key);
            if lookup_last(entries, key) is Some {
                let slot = lookup_last(entries, key).unwrap();
                let i = choose|i: int|
                    0 <= i < entries.drop_last().len() && (#[trigger] entries.drop_last()[i]).1
                        == slot;
                assert(entries[i].1 == slot);
            }
        }
    }
}

/// Every matcher answers only with slots that it was given: the exact
/// matcher with the slot of a registered string, the hierarchical matchers
/// and the regular-expression matcher with the slot of a registered pattern,
/// and the composite with one of their answers or its default.
pub proof fn law_answers_were_registered(
    entries: Seq<(Seq<char>, Slot)>,
    patterns: Seq<Seq<u8>>,
    sources: Seq<Seq<char>>,
    slots: Seq<Slot>,
    input: Seq<char>,
    sep: u8,
    default: Option<Slot>,
)
    requires
        patterns.len() == slots.len(),
        sources.len() == slots.len(),
    ensures
        lookup_last(entries, input) matches Some(slot) ==> exists|i: int|
            0 <= i < entries.len() && (#[trigger] entries[i]).1 == slot,
        suffix_answer(patterns, slots, encode_utf8(input), sep) matches Some(slot)
            ==> slots.contains(slot),
        prefix_answer(patterns, encode_utf8(input), sep) matches Some(found) ==> 0 <= found.0
            < slots.len(),
        regex_answer(sources, slots, input) matches Some(slot) ==> slots.contains(slot),
        ({
            let exact = lookup_last(entries, input);
            let fixed = suffix_answer(patterns, slots, encode_utf8(input), sep);
            let regex = regex_answer(sources, slots, input);
            let answer = first_of(exact, fixed, regex, default);
            answer == exact || answer == fixed || answer == regex || answer == default
        }),
{
    lemma_lookup_registered(entries, input);
}

/// The boundary rule for domains: a strategy that was built for registered
/// domains matches a host exactly when the host is a registered domain, or
/// ends with `.` followed by one. A host that merely ends with the letters
/// of a domain is not matched.
pub proof fn law_domain_boundary(
    m: DomainLevelsStrategy,
    registered: Seq<(Seq<char>, Slot)>,
    host: Seq<char>,
)
    requires
        registers(m.patterns(), m.slots(), registered),
    ensures
        m.answer(host) is Some <==> exists|p: int|
            0 <= p < registered.len() && (host == (#[trigger] registered[p]).0 || ends_with(
                encode_utf8(host),
                seq![DOMAIN_SEP] + encode_utf8(registered[p].0),
            )),
{
    let patterns = m.patterns();
    let hay = encode_utf8(host);
    law_suffix_boundary(patterns, m.slots(), hay, DOMAIN_SEP);
    vstd::utf8::encode_utf8_decode_utf8(host);
    if m.answer(host) is Some {
        let p = choose|p: int|
            0 <= p < patterns.len() && (hay == #[trigger] patterns[p] || ends_with(
                hay,
                seq![DOMAIN_SEP] + patterns[p],
            ));
        assert(patterns[p] == encode_utf8(registered[p].0));
        vstd::utf8::encode_utf8_decode_utf8(registered[p].0);
        assert(host == registered[p].0 || ends_with(
            hay,
            seq![DOMAIN_SEP] + encode_utf8(registered[p].0),
        ));
    }
    if exists|p: int|
        0 <= p < registered.len() && (host == (#[trigger] registered[p]).0 || ends_with(
            hay,
            seq![DOMAIN_SEP] + encode_utf8(registered[p].0),
        )) {
        let p = choose|p: int|
            0 <= p < registered.len() && (host == (#[trigger] registered[p]).0 || ends_with(
                hay,
                seq![DOMAIN_SEP] + encode_utf8(registered[p].0),
            ));
        assert(patterns[p] == encode_utf8(registered[p].0));
        assert(hay == patterns[p] || ends_with(hay, seq![DOMAIN_SEP] + patterns[p]));
    }
}

} // verus!
