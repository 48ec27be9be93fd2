//! The regular-expression matcher.
//!
//! Regular expressions are the `regex` crate's. What this library relies on
//! is stated here and nowhere proved: a compiled expression keeps its
//! pattern, a search is a function of pattern and input, and a set reports
//! the indices of exactly those of its patterns that match somewhere.

use super::slot::{lemma_pairs_push, pairs, Builder, Matcher, Slot, Strategy};
use regex::Error as RegexError;
use regex::{Regex, RegexBuilder, RegexSet, RegexSetBuilder};
use vstd::prelude::*;
use vstd::utf8::encode_utf8;

verus! {

/// The `regex` crate's compiled expression, declared so that it can stand in
/// fields and signatures; nothing of its inside is known.
#[verifier::external_type_specification]
#[verifier::external_body]
pub struct ExRegex(Regex);

/// The `regex` crate's compiled set, declared in the same way.
#[verifier::external_type_specification]
#[verifier::external_body]
pub struct ExRegexSet(RegexSet);

/// The `regex` crate's error, declared so that it can be handed on.
#[verifier::external_type_specification]
#[verifier::external_body]
pub struct ExRegexError(RegexError);

/// The pattern that an expression was compiled from.
pub uninterp spec fn regex_source(re: Regex) -> Seq<char>;

/// The patterns that a set was compiled from, in the order in which they
/// were given.
pub uninterp spec fn regex_set_sources(set: RegexSet) -> Seq<Seq<char>>;

/// The first match of a pattern, compiled with Unicode support, in a
/// haystack: its start and end, in bytes.
pub uninterp spec fn regex_span(pattern: Seq<char>, haystack: Seq<char>) -> Option<(int, int)>;

/// Whether a pattern compiles, with Unicode support: it does unless its
/// syntax is wrong or its program exceeds the compiler's size limit, which
/// is measured on the target that the library is compiled for.
pub uninterp spec fn regex_compiles(pattern: Seq<char>) -> bool;

/// Whether patterns compile as one set, with Unicode support.
pub uninterp spec fn regex_set_compiles(patterns: Seq<Seq<char>>) -> bool;

/// The patterns compile as a set, and each of them alone.
pub open spec fn all_compile(patterns: Seq<Seq<char>>) -> bool {
    regex_set_compiles(patterns) && forall|i: int|
        0 <= i < patterns.len() ==> regex_compiles(#[trigger] patterns[i])
}

/// The pattern of each registered pair.
pub open spec fn sources_of(registered: Seq<(Seq<char>, Slot)>) -> Seq<Seq<char>> {
    Seq::new(registered.len(), |i: int| registered[i].0)
}

/// The view of each text.
pub open spec fn texts(patterns: Seq<String>) -> Seq<Seq<char>> {
    Seq::new(patterns.len(), |i: int| patterns[i]@)
}

/// Compiles one pattern, by `RegexBuilder::build` with Unicode support.
/// Whether it succeeds is decided by the pattern alone. When it succeeds the
/// expression holds this pattern.
#[verifier::external_body]
pub(crate) fn compile_regex(pattern: &str) -> (r: Result<Regex, RegexError>)
    ensures
        r is Ok == regex_compiles(pattern@),
        r matches Ok(re) ==> regex_source(re) == pattern@,
{
    RegexBuilder::new(pattern).unicode(true).build()
}

/// Compiles a set of patterns, by `RegexSetBuilder::build` with Unicode
/// support. Whether it succeeds is decided by the patterns alone. When it
/// succeeds the set holds these patterns in this order.
#[verifier::external_body]
pub(crate) fn compile_regex_set(patterns: &Vec<String>) -> (r: Result<RegexSet, RegexError>)
    ensures
        r is Ok == regex_set_compiles(texts(patterns@)),
        r matches Ok(set) ==> regex_set_sources(set) == texts(patterns@),
{
    RegexSetBuilder::new(patterns).unicode(true).build()
}

/// The patterns that `set` was compiled from, by `RegexSet::patterns`: a
/// copy of each, in the order in which they were given.
#[verifier::external_body]
pub(crate) fn set_patterns(set: &RegexSet) -> (r: Vec<String>)
    ensures
        texts(r@) == regex_set_sources(*set),
{
    set.patterns().to_vec()
}

/// The first match of `re` in `input`, by `Regex::find`: its start and end,
/// in bytes.
#[verifier::external_body]
pub(crate) fn find_span(re: &Regex, input: &str) -> (r: Option<(usize, usize)>)
    ensures
        r is Some == regex_span(regex_source(*re), input@) is Some,
        r matches Some(m) ==> regex_span(regex_source(*re), input@) == Some(
            (m.0 as int, m.1 as int),
        ),
{
    re.find(input).map(|m| (m.start(), m.end()))
}

/// Pattern `i` of a set matches somewhere in the input.
pub open spec fn set_hit(sources: Seq<Seq<char>>, input: Seq<char>, i: int) -> bool {
    0 <= i < sources.len() && regex_span(sources[i], input) is Some
}

/// Every element is less than those after it.
pub open spec fn is_rising(s: Seq<usize>) -> bool {
    forall|j: int, k: int| 0 <= j < k < s.len() ==> s[j] < s[k]
}

/// The indices of the patterns of `set` that match somewhere in `input`, by
/// `RegexSet::matches`, in rising order.
#[verifier::external_body]
pub(crate) fn set_matches(set: &RegexSet, input: &str) -> (r: Vec<usize>)
    ensures
        is_rising(r@),
        forall|i: usize|
            r@.contains(i) <==> set_hit(regex_set_sources(*set), input@, i as int),
{
    set.matches(input).into_iter().collect()
}

/// The pattern matches the whole of the input: its first match starts at the
/// start and ends at the end.
pub open spec fn is_full_match(pattern: Seq<char>, input: Seq<char>) -> bool {
    regex_span(pattern, input) == Some((0int, encode_utf8(input).len() as int))
}

/// Pattern `i` is the first, in the order of registration, that matches the
/// whole of the input.
pub open spec fn is_first_full(sources: Seq<Seq<char>>, input: Seq<char>, i: int) -> bool {
    &&& 0 <= i < sources.len()
    &&& is_full_match(sources[i], input)
    &&& forall|j: int| 0 <= j < i ==> !is_full_match(#[trigger] sources[j], input)
}

/// The slot of the first pattern that matches the whole of the input.
pub open spec fn regex_answer(sources: Seq<Seq<char>>, slots: Seq<Slot>, input: Seq<char>)
    -> Option<Slot> {
    if exists|i: int| is_first_full(sources, input, i) {
        Some(slots[choose|i: int| is_first_full(sources, input, i)])
    } else {
        None
    }
}

/// The first full match decides the answer.
pub proof fn lemma_regex_answer(
    sources: Seq<Seq<char>>,
    slots: Seq<Slot>,
    input: Seq<char>,
    found: Option<int>,
)
    requires
        found matches Some(i) ==> is_first_full(sources, input, i),
        found is None ==> forall|j: int|
            0 <= j < sources.len() ==> !is_full_match(#[trigger] sources[j], input),
    ensures
        regex_answer(sources, slots, input) == match found {
            Some(i) => Some(slots[i]),
            None => None,
        },
{
    match found {
        Some(i) => {
            let first = choose|k: int| is_first_full(sources, input, k);
            if first < i {
                assert(!is_full_match(sources[first], input));
            }
            if i < first {
                assert(!is_full_match(sources[i], input));
            }
        },
        None => {
            if exists|i: int| is_first_full(sources, input, i) {
                let first = choose|k: int| is_first_full(sources, input, k);
                assert(!is_full_match(sources[first], input));
            }
        },
    }
}

/// Matches an input against regular expressions: the first expression, in
/// the order of registration, whose first match covers the whole input wins.
pub struct RegexStrategy {
    /// The set of the patterns; none is compiled for no patterns.
    regex_set: Option<RegexSet>,
    regexes: Vec<Regex>,
    table: Vec<Slot>,
}

impl RegexStrategy {
    /// The registered patterns, in the order of registration.
    pub closed spec fn sources(&self) -> Seq<Seq<char>> {
        match self.regex_set {
            Some(set) => regex_set_sources(set),
            None => Seq::empty(),
        }
    }

    /// The slot of each pattern.
    pub closed spec fn slots(&self) -> Seq<Slot> {
        self.table@
    }

    #[verifier::type_invariant]
    spec fn inv(&self) -> bool {
        &&& self.sources().len() == self.regexes@.len()
        &&& self.table@.len() == self.regexes@.len()
        &&& forall|i: int|
            0 <= i < self.regexes@.len() ==> regex_source(#[trigger] self.regexes@[i])
                == self.sources()[i]
    }

    /// Compiles `patterns`, the slot of each in `table`. For no patterns
    /// nothing is compiled, and the matcher, which matches nothing, is always
    /// had; for others the matcher is had exactly when the patterns compile
    /// as a set and each alone, and else the first error of the compiler is
    /// handed on.
    pub fn new(patterns: Vec<String>, table: Vec<Slot>) -> (r: Result<Self, RegexError>)
        requires
            patterns@.len() == table@.len(),
        ensures
            r is Ok == (patterns@.len() == 0 || all_compile(texts(patterns@))),
            r matches Ok(m) ==> m.sources() == texts(patterns@) && m.slots() == table@,
    {
        if patterns.len() == 0 {
            assert(texts(patterns@) =~= Seq::<Seq<char>>::empty());
            return Ok(RegexStrategy { regex_set: None, regexes: Vec::new(), table });
        }
        let regex_set = match compile_regex_set(&patterns) {
            Ok(set) => set,
            Err(e) => {
                return Err(e);
            },
        };
        let mut regexes: Vec<Regex> = Vec::new();
        let mut i: usize = 0;
        while i < patterns.len()
            invariant
                i <= patterns@.len(),
                regexes@.len() == i,
                forall|j: int|
                    0 <= j < i ==> regex_source(#[trigger] regexes@[j]) == patterns@[j]@,
                forall|j: int| 0 <= j < i ==> regex_compiles(#[trigger] texts(patterns@)[j]),
            decreases patterns@.len() - i,
        {
            assert(texts(patterns@)[i as int] == patterns@[i as int]@);
            match compile_regex(patterns[i].as_str()) {
                Ok(re) => {
                    regexes.push(re);
                },
                Err(e) => {
                    return Err(e);
                },
            }
            i = i + 1;
        }
        Ok(Self::with_compiled(regex_set, regexes, table))
    }

    /// The matcher on a set and on expressions that were compiled from the
    /// same patterns.
    pub(crate) fn with_compiled(regex_set: RegexSet, regexes: Vec<Regex>, table: Vec<Slot>) -> (m: Self)
        requires
            regex_set_sources(regex_set).len() == regexes@.len(),
            table@.len() == regexes@.len(),
            forall|i: int|
                0 <= i < regexes@.len() ==> regex_source(#[trigger] regexes@[i])
                    == regex_set_sources(regex_set)[i],
        ensures
            m.sources() == regex_set_sources(regex_set),
            m.slots() == table@,
    {
        RegexStrategy { regex_set: Some(regex_set), regexes, table }
    }

    /// The registered patterns, in the order of registration.
    pub fn patterns(&self) -> (r: Vec<String>)
        ensures
            texts(r@) == self.sources(),
    {
        match &self.regex_set {
            Some(set) => set_patterns(set),
            None => {
                let r: Vec<String> = Vec::new();
                assert(texts(r@) =~= Seq::<Seq<char>>::empty());
                r
            },
        }
    }

    /// The slot of each pattern, in the order of registration.
    pub fn table(&self) -> (r: &Vec<Slot>)
        ensures
            r@ == self.slots(),
    {
        &self.table
    }

    /// Tells whether a match covers the whole of an input of `len` bytes.
    pub fn covers_whole(span: Option<(usize, usize)>, len: usize) -> (r: bool)
        ensures
            r == (span == Some((0usize, len))),
    {
        match span {
            Some(m) => m.0 == 0 && m.1 == len,
            None => false,
        }
    }

    /// The index of the first pattern that matches the whole of `input`.
    pub fn find(&self, input: &str) -> (r: Option<usize>)
        ensures
            r matches Some(i) ==> is_first_full(self.sources(), input@, i as int) && i
                < self.slots().len(),
            r is None ==> forall|j: int|
                0 <= j < self.sources().len() ==> !is_full_match(
                    #[trigger] self.sources()[j],
                    input@,
                ),
    {
        proof {
            use_type_invariant(self);
        }
        let set = match &self.regex_set {
            Some(set) => set,
            None => {
                return None;
            },
        };
        let ghost sources = regex_set_sources(*set);
        let n: usize = input.as_bytes().len();
        let count: usize = self.regexes.len();
        let hits = set_matches(set, input);
        let mut k: usize = 0;
        while k < hits.len()
            invariant
                k <= hits@.len(),
                n == encode_utf8(input@).len(),
                count == self.regexes@.len(),
                count == self.table@.len(),
                sources == self.sources(),
                sources.len() == count,
                forall|i: int|
                    0 <= i < count ==> regex_source(#[trigger] self.regexes@[i]) == sources[i],
                is_rising(hits@),
                forall|i: usize| hits@.contains(i) <==> set_hit(sources, input@, i as int),
                forall|j: int|
                    0 <= j < k ==> !is_full_match(sources[(#[trigger] hits@[j]) as int], input@),
            decreases hits@.len() - k,
        {
            let idx: usize = hits[k];
            assert(hits@.contains(idx));
            let span = find_span(&self.regexes[idx], input);
            match span {
                Some(m) => {
                    if Self::covers_whole(span, n) {
                        proof {
                            assert(set_hit(sources, input@, idx as int));
                            assert(regex_source(self.regexes@[idx as int]) == sources[idx as int]);
                            assert(is_full_match(sources[idx as int], input@));
                            assert forall|j: int| 0 <= j < idx implies !is_full_match(
                                #[trigger] sources[j],
                                input@,
                            ) by {
                                if is_full_match(sources[j], input@) {
                                    assert(hits@.contains(j as usize));
                                    let at = choose|at: int|
                                        0 <= at < hits@.len() && hits@[at] == j as usize;
                                    if at > k {
                                        assert(hits@[k as int] < hits@[at]);
                                    } else if at < k {
                                        assert(!is_full_match(
                                            sources[hits@[at] as int],
                                            input@,
                                        ));
                                    }
                                }
                            }
                        }
                        return Some(idx);
                    }
                },
                None => {},
            }
            k = k + 1;
        }
        proof {
            assert forall|j: int| 0 <= j < sources.len() implies !is_full_match(
                #[trigger] sources[j],
                input@,
            ) by {
                if is_full_match(sources[j], input@) {
                    assert(hits@.contains(j as usize));
                    let at = choose|at: int| 0 <= at < hits@.len() && hits@[at] == j as usize;
                    assert(!is_full_match(sources[hits@[at] as int], input@));
                }
            }
        }
        None
    }
}

impl Matcher for RegexStrategy {
    open spec fn answer(&self, input: Seq<char>) -> Option<Slot> {
        regex_answer(self.sources(), self.slots(), input)
    }

    fn match_(&self, input: &str) -> (r: Option<Slot>)
        ensures
            r matches Some(slot) ==> self.slots().contains(slot),
    {
        let found = self.find(input);
        proof {
            lemma_regex_answer(
                self.sources(),
                self.slots(),
                input@,
                match found {
                    Some(i) => Some(i as int),
                    None => None,
                },
            );
        }
        match found {
            Some(i) => Some(self.table[i]),
            None => None,
        }
    }
}

/// Collects the patterns of a [`RegexStrategy`].
pub struct RegexStrategyBuilder {
    pub entries: Vec<(String, Slot)>,
}

/// The patterns and slots are those registered.
pub open spec fn compiles(
    sources: Seq<Seq<char>>,
    slots: Seq<Slot>,
    registered: Seq<(Seq<char>, Slot)>,
) -> bool {
    &&& sources.len() == registered.len()
    &&& slots.len() == registered.len()
    &&& forall|i: int|
        0 <= i < registered.len() ==> #[trigger] sources[i] == registered[i].0 && slots[i]
            == registered[i].1
}

impl Default for RegexStrategyBuilder {
    fn default() -> (b: Self)
        ensures
            b.entries@.len() == 0,
    {
        RegexStrategyBuilder { entries: Vec::new() }
    }
}

impl Builder for RegexStrategyBuilder {
    type Strategy = RegexStrategy;

    type Error = RegexError;

    open spec fn registered(&self) -> Seq<(Seq<char>, Slot)> {
        pairs(self.entries@)
    }

    /// With nothing registered the strategy can always be built; else
    /// exactly when the registered patterns compile as a set and each alone.
    open spec fn builds(registered: Seq<(Seq<char>, Slot)>) -> bool {
        registered.len() == 0 || all_compile(sources_of(registered))
    }

    open spec fn built(registered: Seq<(Seq<char>, Slot)>, strategy: RegexStrategy) -> bool {
        compiles(strategy.sources(), strategy.slots(), registered)
    }

    /// The strategy for what was registered.
    fn build(self) -> (r: Result<RegexStrategy, RegexError>) {
        let mut patterns: Vec<String> = Vec::new();
        let mut table: Vec<Slot> = Vec::new();
        let mut i: usize = 0;
        while i < self.entries.len()
            invariant
                i <= self.entries@.len(),
                patterns@.len() == i,
                table@.len() == i,
                forall|j: int|
                    0 <= j < i ==> (#[trigger] patterns@[j])@ == self.entries@[j].0@ && table@[j]
                        == self.entries@[j].1,
            decreases self.entries@.len() - i,
        {
            let text = self.entries[i].0.clone();
            patterns.push(text);
            table.push(self.entries[i].1);
            i = i + 1;
        }
        let ghost texts_handed = texts(patterns@);
        let ghost slots_handed = table@;
        assert(texts_handed =~= sources_of(pairs(self.entries@)));
        let r = RegexStrategy::new(patterns, table);
        proof {
            if r is Ok {
                let m = r->Ok_0;
                let registered = pairs(self.entries@);
                assert(m.sources() == texts_handed);
                assert(m.slots() == slots_handed);
                assert(m.sources().len() == registered.len());
                assert(m.slots().len() == registered.len());
                assert forall|j: int| 0 <= j < registered.len() implies #[trigger] m.sources()[j]
                    == registered[j].0 && m.slots()[j] == registered[j].1 by {
                    assert(texts_handed[j] == self.entries@[j].0@);
                }
            }
        }
        r
    }

    fn add(&mut self, pattern: &str, slot: Slot) {
        let text = pattern.to_owned();
        proof {
            lemma_pairs_push(self.entries@, text, slot);
        }
        self.entries.push((text, slot));
    }
}

impl Strategy for RegexStrategy {
    type Builder = RegexStrategyBuilder;

    fn builder() -> (b: RegexStrategyBuilder) {
        RegexStrategyBuilder::default()
    }
}

} // verus!
