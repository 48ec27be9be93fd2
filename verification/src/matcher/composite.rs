//! The ordered composition of matchers: exact first, then the hierarchical
//! matcher, then regular expressions, then the default.

use super::exact::ExactStrategy;
use super::hierarchy::{DOMAIN_SEP, PATH_SEP};
use super::pattern::{RegexStrategy, RegexStrategyBuilder};
use super::prefix::PrefixMatcher;
use super::slot::{Builder, Matcher, Slot};
use super::suffix::SuffixMatcher;
use regex::Error as RegexError;
use vstd::prelude::*;

verus! {

/// Tries its matchers in a fixed order and falls back to a default slot. A
/// matcher that is absent matches nothing.
pub struct NaiveMatcher<FM: Matcher> {
    pub exact: Option<ExactStrategy>,
    pub fixed: Option<FM>,
    pub regex: Option<RegexStrategy>,
    pub default: Option<Slot>,
}

/// The composite that routes paths: its hierarchical matcher goes by prefix.
pub type LocationMatcher = NaiveMatcher<PrefixMatcher<PATH_SEP>>;

/// The composite that resolves domains: its hierarchical matcher goes by
/// suffix.
pub type DomainMatcher = NaiveMatcher<SuffixMatcher<DOMAIN_SEP>>;

/// What an optional matcher answers.
pub open spec fn answer_of<M: Matcher>(m: Option<M>, input: Seq<char>) -> Option<Slot> {
    match m {
        Some(m) => m.answer(input),
        None => None,
    }
}

/// The first answer in the order exact, hierarchical, regular expression,
/// default.
pub open spec fn first_of(
    exact: Option<Slot>,
    fixed: Option<Slot>,
    regex: Option<Slot>,
    default: Option<Slot>,
) -> Option<Slot> {
    if exact is Some {
        exact
    } else if fixed is Some {
        fixed
    } else if regex is Some {
        regex
    } else {
        default
    }
}

impl<FM: Matcher> NaiveMatcher<FM> {
    /// Composes the matchers for the given exact strings and regular
    /// expressions with a hierarchical matcher and a default. No exact
    /// matcher is made for no strings, and no regular-expression matcher for
    /// no patterns. The composite is had exactly when there are no patterns
    /// or they compile, as a set and each alone.
    pub fn new(
        exact: Vec<(String, Slot)>,
        fixed: Option<FM>,
        regex: Vec<(String, Slot)>,
        default: Option<Slot>,
    ) -> (r: Result<Self, RegexError>)
        ensures
            r is Ok == (regex@.len() == 0 || super::pattern::all_compile(
                super::pattern::sources_of(super::slot::pairs(regex@)),
            )),
            r matches Ok(m) ==> {
                &&& m.fixed == fixed
                &&& m.default == default
                &&& m.exact is Some == (exact@.len() > 0)
                &&& m.exact matches Some(e) ==> e.registered() == super::slot::pairs(exact@)
                &&& m.regex is Some == (regex@.len() > 0)
                &&& m.regex matches Some(x) ==> super::pattern::compiles(
                    x.sources(),
                    x.slots(),
                    super::slot::pairs(regex@),
                )
            },
    {
        let exact_matcher = if exact.len() > 0 {
            Some(ExactStrategy::new(exact))
        } else {
            None
        };
        let regex_matcher = if regex.len() > 0 {
            match (RegexStrategyBuilder { entries: regex }).build() {
                Ok(m) => Some(m),
                Err(e) => {
                    return Err(e);
                },
            }
        } else {
            None
        };
        Ok(NaiveMatcher { exact: exact_matcher, fixed, regex: regex_matcher, default })
    }
}

impl<FM: Matcher> Matcher for NaiveMatcher<FM> {
    open spec fn answer(&self, input: Seq<char>) -> Option<Slot> {
        first_of(
            answer_of(self.exact, input),
            answer_of(self.fixed, input),
            answer_of(self.regex, input),
            self.default,
        )
    }

    fn match_(&self, input: &str) -> (r: Option<Slot>) {
        match &self.exact {
            Some(m) => {
                match m.match_(input) {
                    Some(slot) => {
                        return Some(slot);
                    },
                    None => {},
                }
            },
            None => {},
        }
        match &self.fixed {
            Some(m) => {
                match m.match_(input) {
                    Some(slot) => {
                        return Some(slot);
                    },
                    None => {},
                }
            },
            None => {},
        }
        match &self.regex {
            Some(m) => {
                match m.match_(input) {
                    Some(slot) => {
                        return Some(slot);
                    },
                    None => {},
                }
            },
            None => {},
        }
        self.default
    }
}

} // verus!
