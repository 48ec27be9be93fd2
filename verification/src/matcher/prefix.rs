//! The hierarchical prefix matcher, which routes paths.

use super::automaton::{
    automaton_builds, automaton_overlapping, automaton_patterns, build_automaton, occurs,
    overlapping_matches, texts_bytes,
};
use super::hierarchy::{
    is_best_prefix, is_prefix_hit, lemma_prefix_answer, prefix_answer, slots_of, trim_trailing,
    trimmed, trimmed_texts, wins_over,
};
use super::slot::{Matcher, Slot};
use crate::text::lemma_last_boundary;
use aho_corasick::{AhoCorasick, BuildError};
use vstd::prelude::*;
use vstd::utf8::{encode_utf8, encode_utf8_valid_utf8};

verus! {

/// Matches an input against registered patterns at its start: a pattern
/// matches when it is the whole input, or the start of it before a separator.
/// Of the patterns that match, the longest wins.
pub struct PrefixMatcher<const SEP: u8> {
    /// The searcher for the patterns; none is built for no patterns.
    aho_corasick: Option<AhoCorasick>,
    lookup: Vec<Slot>,
}

/// A match of the prefix matcher: the slot of the pattern, and the index in
/// the input at which the pattern ends.
#[derive(Debug, Clone, Copy, PartialEq, Eq, Structural)]
pub struct PrefixMatch {
    pub index: Slot,
    pub end: usize,
}

/// The occurrence `m` starts at the start of `hay` and ends at its end or
/// before a separator.
pub open spec fn prefix_aligned(hay: Seq<u8>, sep: u8, m: (usize, usize, usize)) -> bool {
    m.1 == 0 && (m.2 == hay.len() || (m.2 < hay.len() && hay[m.2 as int] == sep))
}

/// The slot and the end of the answer.
pub open spec fn prefix_match(slots: Seq<Slot>, answer: Option<(int, int)>) -> Option<PrefixMatch> {
    match answer {
        Some((p, end)) => Some(PrefixMatch { index: slots[p], end: end as usize }),
        None => None,
    }
}

impl<const SEP: u8> PrefixMatcher<SEP> {
    /// The registered patterns, as bytes, in the order of registration.
    pub closed spec fn patterns(&self) -> Seq<Seq<u8>> {
        match self.aho_corasick {
            Some(ac) => automaton_patterns(ac),
            None => Seq::empty(),
        }
    }

    /// The slot of each pattern.
    pub closed spec fn slots(&self) -> Seq<Slot> {
        self.lookup@
    }

    #[verifier::type_invariant]
    spec fn inv(&self) -> bool {
        &&& self.aho_corasick matches Some(ac) ==> automaton_overlapping(ac)
        &&& self.patterns().len() == self.lookup@.len()
    }

    /// Builds the matcher for `prefixes`, the slot of each in `lookup`. One
    /// separator at the end of a pattern is dropped. For no prefixes no
    /// searcher is built and the matcher, which matches nothing, is always
    /// had; for others the matcher is had exactly when the searcher can be
    /// built for the patterns.
    pub fn new(prefixes: Vec<String>, lookup: Vec<Slot>) -> (r: Result<Self, BuildError>)
        requires
            prefixes@.len() == lookup@.len(),
        ensures
            r is Ok == (prefixes@.len() == 0 || automaton_builds(trimmed_texts(prefixes@, SEP))),
            r matches Ok(m) ==> m.patterns() == trimmed_texts(prefixes@, SEP) && m.slots()
                == lookup@,
    {
        if prefixes.len() == 0 {
            assert(trimmed_texts(prefixes@, SEP) =~= Seq::<Seq<u8>>::empty());
            return Ok(PrefixMatcher { aho_corasick: None, lookup });
        }
        let mut keys: Vec<String> = Vec::new();
        let mut i: usize = 0;
        while i < prefixes.len()
            invariant
                i <= prefixes@.len(),
                keys@.len() == i,
                forall|j: int|
                    0 <= j < i ==> encode_utf8(#[trigger] keys@[j]@) == trim_trailing(
                        encode_utf8(prefixes@[j]@),
                        SEP,
                    ),
            decreases prefixes@.len() - i,
        {
            keys.push(strip_trailing(prefixes[i].as_str(), SEP));
            i = i + 1;
        }
        assert(texts_bytes(keys@) =~= trimmed_texts(prefixes@, SEP));
        Self::with_automaton(build_automaton(&keys), lookup)
    }

    /// The matcher on a searcher that was built for its patterns, or the
    /// error where the build failed.
    pub(crate) fn with_automaton(built: Result<AhoCorasick, BuildError>, lookup: Vec<Slot>) -> (r:
        Result<Self, BuildError>)
        requires
            built matches Ok(ac) ==> automaton_overlapping(ac) && automaton_patterns(ac).len()
                == lookup@.len(),
        ensures
            r is Ok == built is Ok,
            r matches Ok(m) ==> m.patterns() == automaton_patterns(built->Ok_0) && m.slots()
                == lookup@,
    {
        match built {
            Ok(aho_corasick) => Ok(PrefixMatcher { aho_corasick: Some(aho_corasick), lookup }),
            Err(e) => Err(e),
        }
    }

    /// Builds the matcher for `entries`: each pattern with its slot. One
    /// separator at the end of a pattern is dropped. For no entries the
    /// matcher is always had; for others it is had exactly when the searcher
    /// can be built for the patterns.
    pub fn build(entries: Vec<(String, Slot)>) -> (r: Result<Self, BuildError>)
        ensures
            r is Ok == (entries@.len() == 0 || automaton_builds(trimmed(entries@, SEP))),
            r matches Ok(m) ==> m.patterns() == trimmed(entries@, SEP) && m.slots() == slots_of(
                entries@,
            ),
    {
        if entries.len() == 0 {
            assert(trimmed(entries@, SEP) =~= Seq::<Seq<u8>>::empty());
            assert(slots_of(entries@) =~= Seq::<Slot>::empty());
            return Ok(PrefixMatcher { aho_corasick: None, lookup: Vec::new() });
        }
        let mut keys: Vec<String> = Vec::new();
        let mut table: Vec<Slot> = Vec::new();
        let mut i: usize = 0;
        while i < entries.len()
            invariant
                i <= entries@.len(),
                keys@.len() == i,
                table@.len() == i,
                forall|j: int|
                    0 <= j < i ==> encode_utf8(#[trigger] keys@[j]@) == trim_trailing(
                        encode_utf8(entries@[j].0@),
                        SEP,
                    ),
                forall|j: int| 0 <= j < i ==> #[trigger] table@[j] == entries@[j].1,
            decreases entries@.len() - i,
        {
            keys.push(strip_trailing(entries[i].0.as_str(), SEP));
            table.push(entries[i].1);
            i = i + 1;
        }
        assert(texts_bytes(keys@) =~= trimmed(entries@, SEP));
        assert(table@ =~= slots_of(entries@));
        Self::with_automaton(build_automaton(&keys), table)
    }

    /// The pattern that wins for `input` and the index at which it ends, if
    /// any matches.
    pub fn find(&self, input: &str) -> (r: Option<(usize, usize)>)
        ensures
            r matches Some(b) ==> is_best_prefix(
                self.patterns(),
                encode_utf8(input@),
                SEP,
                b.0 as int,
            ) && b.0 < self.slots().len() && b.1 == self.patterns()[b.0 as int].len(),
            r is None ==> forall|q: int|
                !#[trigger] is_prefix_hit(self.patterns(), encode_utf8(input@), SEP, q),
    {
        proof {
            use_type_invariant(self);
        }
        let searcher = match &self.aho_corasick {
            Some(searcher) => searcher,
            None => {
                return None;
            },
        };
        let hay = input.as_bytes();
        let ghost patterns = automaton_patterns(*searcher);
        let found = overlapping_matches(searcher, input);
        let n: usize = hay.len();
        // The slots are a vector, so the number of patterns fits in `usize`.
        let count: usize = self.lookup.len();
        assert(patterns.len() == count);
        let mut best: Option<(usize, usize)> = None;
        let mut i: usize = 0;
        while i < found.len()
            invariant
                i <= found@.len(),
                hay@ == encode_utf8(input@),
                n == hay@.len(),
                forall|m: (usize, usize, usize)|
                    found@.contains(m) <==> occurs(
                        patterns,
                        hay@,
                        m.0 as int,
                        m.1 as int,
                        m.2 as int,
                    ),
                best matches Some(b) ==> occurs(patterns, hay@, b.0 as int, 0, b.1 as int)
                    && prefix_aligned(hay@, SEP, (b.0, 0, b.1)),
                forall|j: int|
                    0 <= j < i && prefix_aligned(hay@, SEP, #[trigger] found@[j]) ==> (best matches Some(
                        b,
                    ) && (b.1 > found@[j].2 || (b.1 == found@[j].2 && b.0 <= found@[j].0))),
            decreases found@.len() - i,
        {
            let m = found[i];
            assert(found@.contains(m));
            if m.1 == 0 && (m.2 == n || (m.2 < n && hay[m.2] == SEP)) {
                let better: bool = match best {
                    None => true,
                    Some(b) => m.2 > b.1 || (m.2 == b.1 && m.0 < b.0),
                };
                if better {
                    best = Some((m.0, m.2));
                }
            }
            i = i + 1;
        }
        match best {
            None => {
                assert forall|q: int| !#[trigger] is_prefix_hit(patterns, hay@, SEP, q) by {
                    if is_prefix_hit(patterns, hay@, SEP, q) {
                        let m = (q as usize, 0usize, patterns[q].len() as usize);
                        assert(occurs(patterns, hay@, m.0 as int, m.1 as int, m.2 as int));
                        assert(found@.contains(m));
                        let j = choose|j: int| 0 <= j < found@.len() && found@[j] == m;
                        assert(prefix_aligned(hay@, SEP, found@[j]));
                    }
                }
                None
            },
            Some(b) => {
                proof {
                    assert(hay@.subrange(0, b.1 as int).len() == b.1);
                    assert(is_prefix_hit(patterns, hay@, SEP, b.0 as int));
                    assert forall|q: int| #[trigger]
                        is_prefix_hit(patterns, hay@, SEP, q) implies wins_over(
                        patterns,
                        b.0 as int,
                        q,
                    ) by {
                        let m = (q as usize, 0usize, patterns[q].len() as usize);
                        assert(occurs(patterns, hay@, m.0 as int, m.1 as int, m.2 as int));
                        assert(found@.contains(m));
                        let j = choose|j: int| 0 <= j < found@.len() && found@[j] == m;
                        assert(prefix_aligned(hay@, SEP, found@[j]));
                    }
                }
                Some(b)
            },
        }
    }

    /// The slot of the pattern that wins for `input`, and where it ends.
    pub fn matched(&self, input: &str) -> (r: Option<PrefixMatch>)
        ensures
            r == prefix_match(
                self.slots(),
                prefix_answer(self.patterns(), encode_utf8(input@), SEP),
            ),
            r matches Some(m) ==> self.slots().contains(m.index) && m.end <= encode_utf8(
                input@,
            ).len(),
    {
        let found = self.find(input);
        proof {
            lemma_prefix_answer(
                self.patterns(),
                encode_utf8(input@),
                SEP,
                match found {
                    Some(b) => Some(b.0 as int),
                    None => None,
                },
            );
        }
        match found {
            Some(b) => Some(PrefixMatch { index: self.lookup[b.0], end: b.1 }),
            None => None,
        }
    }
}

impl<const SEP: u8> Matcher for PrefixMatcher<SEP> {
    open spec fn answer(&self, input: Seq<char>) -> Option<Slot> {
        match prefix_answer(self.patterns(), encode_utf8(input), SEP) {
            Some((p, _)) => Some(self.slots()[p]),
            None => None,
        }
    }

    fn match_(&self, input: &str) -> (r: Option<Slot>) {
        match self.matched(input) {
            Some(m) => Some(m.index),
            None => None,
        }
    }
}

/// `text` without one separator at its end, where that is dropped.
pub fn strip_trailing(text: &str, sep: u8) -> (r: String)
    ensures
        encode_utf8(r@) == trim_trailing(encode_utf8(text@), sep),
{
    let bytes = text.as_bytes();
    let n: usize = bytes.len();
    if sep < 0x80 && n > 1 && bytes[n - 1] == sep && bytes[n - 2] != sep {
        proof {
            encode_utf8_valid_utf8(text@);
            lemma_last_boundary(bytes@);
        }
        let (head, _) = text.split_at(n - 1);
        let r = head.to_owned();
        assert(encode_utf8(r@) =~= bytes@.drop_last());
        r
    } else {
        text.to_owned()
    }
}

} // verus!
