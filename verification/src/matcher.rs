//! String matchers that map an input to a slot: exact, by hierarchical
//! prefix or suffix, by regular expression, and their ordered composition.

pub mod automaton;
pub mod composite;
pub mod domain_levels;
pub mod exact;
pub mod hierarchy;
pub mod laws;
pub mod pattern;
pub mod prefix;
pub mod router;
pub mod slot;
pub mod suffix;

pub use self::composite::{DomainMatcher, LocationMatcher, NaiveMatcher};
pub use self::domain_levels::{DomainLevelsStrategy, DomainLevelsStrategyBuilder};
pub use self::exact::{ExactStrategy, ExactStrategyBuilder};
pub use self::pattern::{RegexStrategy, RegexStrategyBuilder};
pub use self::prefix::{PrefixMatch, PrefixMatcher};
pub use self::router::{LastRouteMatch, PathRouter, RouterBuildError, RouterBuilder};
pub use self::slot::{Builder, Matcher, Slot, Strategy};
pub use self::suffix::SuffixMatcher;
