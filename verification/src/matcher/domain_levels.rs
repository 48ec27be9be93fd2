//! The strategy that finds the most specific registered domain for a host
//! name, respecting the hierarchy of domains.
//!
//! With `www.example.com` and `example.com` registered:
//! `beispiel.de` matches nothing, `example.com` and `sub.example.com` match
//! `example.com`, and `www.example.com` matches `www.example.com`.

use super::automaton::automaton_builds;
use super::hierarchy::{suffix_answer, DOMAIN_SEP};
use super::slot::{lemma_pairs_push, pairs, Builder, Matcher, Slot, Strategy};
use super::suffix::SuffixMatcher;
use aho_corasick::BuildError;
use vstd::prelude::*;
use vstd::utf8::encode_utf8;

verus! {

/// Matches a host name against registered domains by its levels.
pub struct DomainLevelsStrategy {
    inner: SuffixMatcher<DOMAIN_SEP>,
}

/// Collects the domains of a [`DomainLevelsStrategy`].
pub struct DomainLevelsStrategyBuilder {
    pub entries: Vec<(String, Slot)>,
}

/// The bytes of each registered pattern.
pub open spec fn registered_bytes(registered: Seq<(Seq<char>, Slot)>) -> Seq<Seq<u8>> {
    Seq::new(registered.len(), |i: int| encode_utf8(registered[i].0))
}

/// The patterns and slots are those registered.
pub open spec fn registers(
    patterns: Seq<Seq<u8>>,
    slots: Seq<Slot>,
    registered: Seq<(Seq<char>, Slot)>,
) -> bool {
    &&& patterns.len() == registered.len()
    &&& slots.len() == registered.len()
    &&& forall|i: int|
        0 <= i < registered.len() ==> #[trigger] patterns[i] == encode_utf8(registered[i].0)
            && slots[i] == registered[i].1
}

impl DomainLevelsStrategy {
    /// The registered domains, as bytes, in the order of registration.
    pub closed spec fn patterns(&self) -> Seq<Seq<u8>> {
        self.inner.patterns()
    }

    /// The slot of each domain.
    pub closed spec fn slots(&self) -> Seq<Slot> {
        self.inner.slots()
    }
}

impl Matcher for DomainLevelsStrategy {
    open spec fn answer(&self, input: Seq<char>) -> Option<Slot> {
        suffix_answer(self.patterns(), self.slots(), encode_utf8(input), DOMAIN_SEP)
    }

    fn match_(&self, input: &str) -> (r: Option<Slot>) {
        self.inner.match_(input)
    }
}

impl Default for DomainLevelsStrategyBuilder {
    fn default() -> (b: Self)
        ensures
            b.entries@.len() == 0,
    {
        DomainLevelsStrategyBuilder { entries: Vec::new() }
    }
}

impl Builder for DomainLevelsStrategyBuilder {
    type Strategy = DomainLevelsStrategy;

    type Error = BuildError;

    open spec fn registered(&self) -> Seq<(Seq<char>, Slot)> {
        pairs(self.entries@)
    }

    /// With nothing registered the strategy can always be built; else
    /// exactly when the searcher can be built for the registered patterns.
    open spec fn builds(registered: Seq<(Seq<char>, Slot)>) -> bool {
        registered.len() == 0 || automaton_builds(registered_bytes(registered))
    }

    open spec fn built(registered: Seq<(Seq<char>, Slot)>, strategy: DomainLevelsStrategy) -> bool {
        registers(strategy.patterns(), strategy.slots(), registered)
    }

    /// The strategy for what was registered.
    fn build(self) -> (r: Result<DomainLevelsStrategy, BuildError>) {
        proof {
            assert(registered_bytes(pairs(self.entries@)) =~= super::hierarchy::patterns_of(
                self.entries@,
            ));
            assert(super::hierarchy::slots_of(self.entries@).len() == self.entries@.len());
        }
        match SuffixMatcher::<DOMAIN_SEP>::build(self.entries) {
            Ok(inner) => Ok(DomainLevelsStrategy { inner }),
            Err(e) => Err(e),
        }
    }

    fn add(&mut self, string: &str, slot: Slot) {
        let text = string.to_owned();
        proof {
            lemma_pairs_push(self.entries@, text, slot);
        }
        self.entries.push((text, slot));
    }
}

impl Strategy for DomainLevelsStrategy {
    type Builder = DomainLevelsStrategyBuilder;

    fn builder() -> (b: DomainLevelsStrategyBuilder) {
        DomainLevelsStrategyBuilder::default()
    }
}

} // verus!
