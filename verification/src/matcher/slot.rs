//! The handle that a matcher returns, and the contract that all matchers
//! share.

use crate::text::{nfc_of, normalize_str};
use vstd::prelude::*;

verus! {

/// An opaque handle for a route. Builders are given the slots; what a slot
/// stands for is the caller's business.
#[derive(Copy, Clone, Debug, PartialEq, Eq, Hash, Structural)]
pub struct Slot(pub u64);

/// Something that maps an input string to a slot, or to nothing.
pub trait Matcher {
    /// What the matcher answers for `input`.
    spec fn answer(&self, input: Seq<char>) -> Option<Slot>;

    /// The slot for `input`, if one matches.
    fn match_(&self, input: &str) -> (r: Option<Slot>)
        ensures
            r == self.answer(input@),
    ;
}

/// The texts of registered pairs, with their slots.
pub open spec fn pairs(entries: Seq<(String, Slot)>) -> Seq<(Seq<char>, Slot)> {
    Seq::new(entries.len(), |i: int| (entries[i].0@, entries[i].1))
}

/// Registering one more pair.
pub proof fn lemma_pairs_push(entries: Seq<(String, Slot)>, text: String, slot: Slot)
    ensures
        pairs(entries.push((text, slot))) == pairs(entries).push((text@, slot)),
{
    assert(pairs(entries.push((text, slot))) =~= pairs(entries).push((text@, slot)));
}

/// Collects patterns with their slots and builds a strategy from them.
pub trait Builder: Sized {
    /// What is built.
    type Strategy;

    /// Why building can fail.
    type Error;

    /// The patterns registered so far with their slots, in the order of
    /// registration.
    spec fn registered(&self) -> Seq<(Seq<char>, Slot)>;

    /// Whether a strategy can be built for `registered`.
    spec fn builds(registered: Seq<(Seq<char>, Slot)>) -> bool;

    /// `strategy` holds the patterns of `registered` with their slots, in
    /// the order of registration, and nothing else.
    spec fn built(registered: Seq<(Seq<char>, Slot)>, strategy: Self::Strategy) -> bool;

    /// Builds the strategy for what was registered: it is had exactly when
    /// it can be built, and then holds what was registered.
    fn build(self) -> (r: Result<Self::Strategy, Self::Error>)
        ensures
            r is Ok == Self::builds(self.registered()),
            r matches Ok(strategy) ==> Self::built(self.registered(), strategy),
    ;

    /// Registers a pattern that is already normalised and not URL-encoded.
    fn add(&mut self, string: &str, slot: Slot)
        ensures
            final(self).registered() == old(self).registered().push((string@, slot)),
    ;

    /// Registers a pattern after normalising it.
    fn add_unnormalized(&mut self, segment: &str, slot: Slot)
        ensures
            final(self).registered() == old(self).registered().push((nfc_of(segment@), slot)),
    {
        let normalized = normalize_str(segment);
        self.add(normalized.as_str(), slot)
    }

    /// As `add`, for a builder that is passed along.
    fn add_owned(self, string: &str, slot: Slot) -> (r: Self)
        ensures
            r.registered() == self.registered().push((string@, slot)),
    {
        let mut builder = self;
        builder.add(string, slot);
        builder
    }

    /// As `add_unnormalized`, for a builder that is passed along.
    fn add_unnormalized_owned(self, segment: &str, slot: Slot) -> (r: Self)
        ensures
            r.registered() == self.registered().push((nfc_of(segment@), slot)),
    {
        let mut builder = self;
        builder.add_unnormalized(segment, slot);
        builder
    }
}

/// A matcher that comes with its builder.
pub trait Strategy: Matcher {
    /// The builder of this strategy.
    type Builder: Builder;

    /// A builder with nothing registered.
    fn builder() -> (b: Self::Builder)
        ensures
            b.registered().len() == 0,
    ;
}

} // verus!
