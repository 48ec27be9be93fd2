//! The hierarchical suffix matcher, which resolves domains.

use super::automaton::{
    automaton_builds, automaton_overlapping, automaton_patterns, build_automaton, occurs,
    overlapping_matches, texts_bytes,
};
use super::hierarchy::{
    is_best_suffix, is_suffix_hit, lemma_suffix_answer, patterns_of, slots_of, suffix_answer,
    wins_over,
};
use super::slot::{Matcher, Slot};
use aho_corasick::{AhoCorasick, BuildError};
use vstd::prelude::*;
use vstd::utf8::encode_utf8;

verus! {

/// Matches an input against registered patterns at its end: a pattern matches
/// when it is the whole input, or the end of it after a separator. Of the
/// patterns that match, the longest wins.
pub struct SuffixMatcher<const SEP: u8> {
    /// The searcher for the patterns; none is built for no patterns.
    matcher: Option<AhoCorasick>,
    table: Vec<Slot>,
}

/// The occurrence `m` reaches the end of `hay` and starts at its start or
/// after a separator.
pub open spec fn suffix_aligned(hay: Seq<u8>, sep: u8, m: (usize, usize, usize)) -> bool {
    m.2 == hay.len() && (m.1 == 0 || (0 < m.1 <= hay.len() && hay[m.1 - 1] == sep))
}

impl<const SEP: u8> SuffixMatcher<SEP> {
    /// The registered patterns, as bytes, in the order of registration.
    pub closed spec fn patterns(&self) -> Seq<Seq<u8>> {
        match self.matcher {
            Some(ac) => automaton_patterns(ac),
            None => Seq::empty(),
        }
    }

    /// The slot of each pattern.
    pub closed spec fn slots(&self) -> Seq<Slot> {
        self.table@
    }

    #[verifier::type_invariant]
    spec fn inv(&self) -> bool {
        &&& self.matcher matches Some(ac) ==> automaton_overlapping(ac)
        &&& self.patterns().len() == self.table@.len()
    }

    /// The pattern that wins for `input`, if any matches.
    pub fn find(&self, input: &str) -> (r: Option<usize>)
        ensures
            r matches Some(p) ==> is_best_suffix(self.patterns(), encode_utf8(input@), SEP, p as int)
                && p < self.slots().len(),
            r is None ==> forall|q: int|
                !#[trigger] is_suffix_hit(self.patterns(), encode_utf8(input@), SEP, q),
    {
        proof {
            use_type_invariant(self);
        }
        let searcher = match &self.matcher {
            Some(searcher) => searcher,
            None => {
                return None;
            },
        };
        let hay = input.as_bytes();
        let ghost patterns = automaton_patterns(*searcher);
        let found = overlapping_matches(searcher, input);
        let n: usize = hay.len();
        // The slots are a vector, so the number of patterns fits in `usize`.
        let count: usize = self.table.len();
        assert(patterns.len() == count);
        let mut best: Option<(usize, usize)> = None;
        let mut i: usize = 0;
        while i < found.len()
            invariant
                i <= found@.len(),
                hay@ == encode_utf8(input@),
                n == hay@.len(),
                forall|m: (usize, usize, usize)|
                    found@.contains(m) <==> occurs(
                        patterns,
                        hay@,
                        m.0 as int,
                        m.1 as int,
                        m.2 as int,
                    ),
                best matches Some(b) ==> occurs(
                    patterns,
                    hay@,
                    b.0 as int,
                    b.1 as int,
                    hay@.len() as int,
                ) && suffix_aligned(hay@, SEP, (b.0, b.1, hay@.len() as usize)),
                forall|j: int|
                    0 <= j < i && suffix_aligned(hay@, SEP, #[trigger] found@[j]) ==> (best matches Some(
                        b,
                    ) && (b.1 < found@[j].1 || (b.1 == found@[j].1 && b.0 <= found@[j].0))),
            decreases found@.len() - i,
        {
            let m = found[i];
            assert(found@.contains(m));
            if m.2 == n && (m.1 == 0 || hay[m.1 - 1] == SEP) {
                let better: bool = match best {
                    None => true,
                    Some(b) => m.1 < b.1 || (m.1 == b.1 && m.0 < b.0),
                };
                if better {
                    best = Some((m.0, m.1));
                }
            }
            i = i + 1;
        }
        match best {
            None => {
                assert forall|q: int| !#[trigger] is_suffix_hit(patterns, hay@, SEP, q) by {
                    if is_suffix_hit(patterns, hay@, SEP, q) {
                        let s = hay@.len() - patterns[q].len();
                        let m = (q as usize, s as usize, hay@.len() as usize);
                        assert(occurs(patterns, hay@, m.0 as int, m.1 as int, m.2 as int));
                        assert(found@.contains(m));
                        let j = choose|j: int| 0 <= j < found@.len() && found@[j] == m;
                        assert(suffix_aligned(hay@, SEP, found@[j]));
                    }
                }
                None
            },
            Some(b) => {
                proof {
                    assert(hay@.subrange(b.1 as int, hay@.len() as int).len() == hay@.len() - b.1);
                    assert(is_suffix_hit(patterns, hay@, SEP, b.0 as int));
                    assert forall|q: int| #[trigger]
                        is_suffix_hit(patterns, hay@, SEP, q) implies wins_over(
                        patterns,
                        b.0 as int,
                        q,
                    ) by {
                        let s = hay@.len() - patterns[q].len();
                        let m = (q as usize, s as usize, hay@.len() as usize);
                        assert(occurs(patterns, hay@, m.0 as int, m.1 as int, m.2 as int));
                        assert(found@.contains(m));
                        let j = choose|j: int| 0 <= j < found@.len() && found@[j] == m;
                        assert(suffix_aligned(hay@, SEP, found@[j]));
                    }
                }
                Some(b.0)
            },
        }
    }

    /// Builds the matcher for `entries`: each pattern, as it is, with its
    /// slot. For no entries no searcher is built and the matcher, which
    /// matches nothing, is always had; for others the matcher is had exactly
    /// when the searcher can be built for the patterns.
    pub fn build(entries: Vec<(String, Slot)>) -> (r: Result<Self, BuildError>)
        ensures
            r is Ok == (entries@.len() == 0 || automaton_builds(patterns_of(entries@))),
            r matches Ok(m) ==> m.patterns() == patterns_of(entries@) && m.slots() == slots_of(
                entries@,
            ),
    {
        if entries.len() == 0 {
            assert(patterns_of(entries@) =~= Seq::<Seq<u8>>::empty());
            assert(slots_of(entries@) =~= Seq::<Slot>::empty());
            return Ok(SuffixMatcher { matcher: None, table: Vec::new() });
        }
        let mut keys: Vec<String> = Vec::new();
        let mut table: Vec<Slot> = Vec::new();
        let mut i: usize = 0;
        while i < entries.len()
            invariant
                i <= entries@.len(),
                keys@.len() == i,
                table@.len() == i,
                forall|j: int| 0 <= j < i ==> (#[trigger] keys@[j])@ == entries@[j].0@,
                forall|j: int| 0 <= j < i ==> #[trigger] table@[j] == entries@[j].1,
            decreases entries@.len() - i,
        {
            let key = entries[i].0.clone();
            keys.push(key);
            table.push(entries[i].1);
            i = i + 1;
        }
        assert(texts_bytes(keys@) =~= patterns_of(entries@));
        assert(table@ =~= slots_of(entries@));
        Self::with_automaton(build_automaton(&keys), table)
    }

    /// The matcher on a searcher that was built for its patterns, or the
    /// error where the build failed.
    pub(crate) fn with_automaton(built: Result<AhoCorasick, BuildError>, table: Vec<Slot>) -> (r: Result<
        Self,
        BuildError,
    >)
        requires
            built matches Ok(ac) ==> automaton_overlapping(ac) && automaton_patterns(ac).len()
                == table@.len(),
        ensures
            r is Ok == built is Ok,
            r matches Ok(m) ==> m.patterns() == automaton_patterns(built->Ok_0) && m.slots()
                == table@,
    {
        match built {
            Ok(matcher) => Ok(SuffixMatcher { matcher: Some(matcher), table }),
            Err(e) => Err(e),
        }
    }
}

impl<const SEP: u8> Matcher for SuffixMatcher<SEP> {
    open spec fn answer(&self, input: Seq<char>) -> Option<Slot> {
        suffix_answer(self.patterns(), self.slots(), encode_utf8(input), SEP)
    }

    fn match_(&self, input: &str) -> (r: Option<Slot>) {
        let found = self.find(input);
        proof {
            lemma_suffix_answer(
                self.patterns(),
                self.slots(),
                encode_utf8(input@),
                SEP,
                match found {
                    Some(p) => Some(p as int),
                    None => None,
                },
            );
        }
        match found {
            Some(p) => Some(self.table[p]),
            None => None,
        }
    }
}

} // verus!
