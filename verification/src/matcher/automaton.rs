//! The multi-pattern searcher behind the prefix and suffix matchers.
//!
//! The searcher is the `aho-corasick` crate's. What this library relies on is
//! stated here and nowhere proved: the searcher keeps the patterns it was
//! built from, and an overlapping search reports every occurrence of every
//! pattern.

use aho_corasick::{AhoCorasick, BuildError};
use vstd::prelude::*;

use vstd::utf8::encode_utf8;

verus! {

/// The `aho-corasick` crate's searcher, declared so that it can stand in
/// fields and signatures; nothing of its inside is known.
#[verifier::external_type_specification]
#[verifier::external_body]
pub struct ExAhoCorasick(AhoCorasick);

/// The `aho-corasick` crate's build error, declared so that it can be
/// handed on.
#[verifier::external_type_specification]
#[verifier::external_body]
pub struct ExBuildError(BuildError);

/// The patterns that a searcher was built from, as bytes, in the order in
/// which they were given.
pub uninterp spec fn automaton_patterns(ac: AhoCorasick) -> Seq<Seq<u8>>;

/// The searcher was built to report matches as they are found and for
/// searches that may start anywhere: the configuration that overlapping
/// searches need.
pub uninterp spec fn automaton_overlapping(ac: AhoCorasick) -> bool;

/// Whether a searcher can be built for these patterns. The build fails only
/// where the patterns exceed the crate's limits: on the number of states of
/// the automaton, on the number of patterns, and on the length of a pattern.
/// The limits are those of the target that the library is compiled for.
pub uninterp spec fn automaton_builds(patterns: Seq<Seq<u8>>) -> bool;

/// The bytes of each text.
pub open spec fn texts_bytes(texts: Seq<String>) -> Seq<Seq<u8>> {
    Seq::new(texts.len(), |i: int| encode_utf8(texts[i]@))
}

/// Pattern `p` occurs in `hay` from index `s` to index `e`.
pub open spec fn occurs(patterns: Seq<Seq<u8>>, hay: Seq<u8>, p: int, s: int, e: int) -> bool {
    &&& 0 <= p < patterns.len()
    &&& 0 <= s <= e <= hay.len()
    &&& hay.subrange(s, e) == patterns[p]
}

/// Builds a searcher for `patterns`, by `AhoCorasick::new`: with the default
/// configuration, which supports overlapping searches. Whether it succeeds
/// is decided by the patterns alone. When it succeeds the searcher holds
/// exactly these patterns.
#[verifier::external_body]
pub(crate) fn build_automaton(patterns: &Vec<String>) -> (r: Result<AhoCorasick, BuildError>)
    ensures
        r is Ok == automaton_builds(texts_bytes(patterns@)),
        r matches Ok(ac) ==> automaton_patterns(ac) == texts_bytes(patterns@)
            && automaton_overlapping(ac),
{
    AhoCorasick::new(patterns)
}

/// Every occurrence of every pattern in `input`, by
/// `AhoCorasick::find_overlapping_iter`: each as the pattern's index, the
/// start and the end of the occurrence, in bytes. The order is the
/// searcher's.
#[verifier::external_body]
pub(crate) fn overlapping_matches(ac: &AhoCorasick, input: &str) -> (r: Vec<(usize, usize, usize)>)
    requires
        automaton_overlapping(*ac),
    ensures
        forall|m: (usize, usize, usize)|
            r@.contains(m) <==> occurs(
                automaton_patterns(*ac),
                encode_utf8(input@),
                m.0 as int,
                m.1 as int,
                m.2 as int,
            ),
{
    ac.find_overlapping_iter(input).map(|m| (m.pattern().as_usize(), m.start(), m.end())).collect()
}

} // verus!
