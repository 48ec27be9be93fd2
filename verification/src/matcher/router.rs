//! The path router: routes as indices into a list of services, with the
//! default service first.

use super::exact::ExactStrategy;
use super::automaton::automaton_builds;
use super::hierarchy::{prefix_answer, trim_trailing, trimmed, PATH_SEP};
use super::pattern::{
    all_compile, compiles, regex_answer, sources_of, RegexStrategy, RegexStrategyBuilder,
};
use super::prefix::{prefix_match, PrefixMatch, PrefixMatcher};
use super::slot::{pairs, Builder, Matcher, Slot};
use aho_corasick::BuildError;
use regex::Error as RegexError;
use vstd::prelude::*;
use vstd::utf8::encode_utf8;

verus! {

/// Why a router could not be built.
#[derive(Debug)]
pub enum RouterBuildError {
    /// A regular expression did not compile.
    Regex(RegexError),
    /// The prefix searcher could not be built.
    AhoCorasick(BuildError),
}

/// Where in the path the last match ended, so that a handler can serve what
/// follows its mount point.
#[derive(Debug, Clone, Copy, PartialEq, Eq, Structural)]
pub struct LastRouteMatch {
    pub end: usize,
}

/// Resolves a path to the index of a service: an exact route first, then the
/// longest prefix route, then the first regular-expression route, then the
/// default, which is index 0.
pub struct PathRouter {
    exact: ExactStrategy,
    prefix: PrefixMatcher<PATH_SEP>,
    regex: RegexStrategy,
    count: usize,
}

/// Collects the routes of a [`PathRouter`] with their services.
pub struct RouterBuilder<S> {
    pub exact: Vec<(String, S)>,
    pub prefix: Vec<(String, S)>,
    pub regex: Vec<(String, S)>,
    pub default: S,
}

/// The route index and the end of the match for a path, from what each of
/// the three matchers answers.
pub open spec fn route_of(
    exact: Option<Slot>,
    prefix: Option<PrefixMatch>,
    regex: Option<Slot>,
    len: int,
) -> (int, int) {
    match exact {
        Some(slot) => (slot.0 as int, len),
        None => match prefix {
            Some(m) => (m.index.0 as int, m.end as int),
            None => match regex {
                Some(slot) => (slot.0 as int, len),
                None => (0, 0),
            },
        },
    }
}

/// Every slot is below `count`.
pub open spec fn slots_below(slots: Seq<Slot>, count: int) -> bool {
    forall|i: int| 0 <= i < slots.len() ==> (#[trigger] slots[i]).0 < count
}

/// Every registered slot is below `count`.
pub open spec fn pairs_below(entries: Seq<(Seq<char>, Slot)>, count: int) -> bool {
    forall|i: int| 0 <= i < entries.len() ==> (#[trigger] entries[i]).1.0 < count
}

/// A lookup answers with a registered slot.
pub proof fn lemma_lookup_below(entries: Seq<(Seq<char>, Slot)>, key: Seq<char>, count: int)
    requires
        pairs_below(entries, count),
    ensures
        super::exact::lookup_last(entries, key) matches Some(slot) ==> slot.0 < count,
    decreases entries.len(),
{
    if entries.len() > 0 {
        assert(entries.last() == entries[entries.len() - 1]);
        if entries.last().0 != key {
            assert forall|i: int| 0 <= i < entries.drop_last().len() implies (
            #[trigger] entries.drop_last()[i]).1.0 < count by {
                assert(entries.drop_last()[i] == entries[i]);
            }
            lemma_lookup_below(entries.drop_last(), key, count);
        }
    }
}

impl PathRouter {
    /// The exact routes with their indices.
    pub closed spec fn exact_routes(&self) -> Seq<(Seq<char>, Slot)> {
        self.exact.registered()
    }

    /// The prefix routes, as bytes.
    pub closed spec fn prefix_routes(&self) -> Seq<Seq<u8>> {
        self.prefix.patterns()
    }

    /// The index of each prefix route.
    pub closed spec fn prefix_slots(&self) -> Seq<Slot> {
        self.prefix.slots()
    }

    /// The regular-expression routes.
    pub closed spec fn regex_routes(&self) -> Seq<Seq<char>> {
        self.regex.sources()
    }

    /// The index of each regular-expression route.
    pub closed spec fn regex_slots(&self) -> Seq<Slot> {
        self.regex.slots()
    }

    /// The number of services, the default included.
    pub closed spec fn services(&self) -> int {
        self.count as int
    }

    #[verifier::type_invariant]
    spec fn inv(&self) -> bool {
        &&& self.count >= 1
        &&& pairs_below(self.exact.registered(), self.count as int)
        &&& slots_below(self.prefix.slots(), self.count as int)
        &&& slots_below(self.regex.slots(), self.count as int)
    }

    /// The index and the match end that the router answers for `path`.
    pub open spec fn route(&self, path: Seq<char>) -> (int, int) {
        route_of(
            super::exact::lookup_last(self.exact_routes(), path),
            prefix_match(
                self.prefix_slots(),
                prefix_answer(self.prefix_routes(), encode_utf8(path), PATH_SEP),
            ),
            regex_answer(self.regex_routes(), self.regex_slots(), path),
            encode_utf8(path).len() as int,
        )
    }

    /// The router on its three matchers, of which two may have failed to
    /// build: an error of the prefix matcher comes first, then one of the
    /// regular-expression matcher.
    pub fn assemble(
        exact: ExactStrategy,
        prefix: Result<PrefixMatcher<PATH_SEP>, BuildError>,
        regex: Result<RegexStrategy, RegexError>,
        count: usize,
    ) -> (r: Result<PathRouter, RouterBuildError>)
        requires
            count >= 1,
            pairs_below(exact.registered(), count as int),
            prefix matches Ok(p) ==> slots_below(p.slots(), count as int),
            regex matches Ok(x) ==> slots_below(x.slots(), count as int),
        ensures
            r is Ok == (prefix is Ok && regex is Ok),
            prefix matches Err(e) ==> r == Err::<PathRouter, RouterBuildError>(
                RouterBuildError::AhoCorasick(e),
            ),
            (prefix is Ok && regex is Err) ==> r == Err::<PathRouter, RouterBuildError>(
                RouterBuildError::Regex(regex->Err_0),
            ),
            r matches Ok(router) ==> router.exact_routes() == exact.registered()
                && router.prefix_routes() == prefix->Ok_0.patterns() && router.prefix_slots()
                == prefix->Ok_0.slots() && router.regex_routes() == regex->Ok_0.sources()
                && router.regex_slots() == regex->Ok_0.slots() && router.services() == count,
    {
        let prefix = match prefix {
            Ok(prefix) => prefix,
            Err(e) => {
                return Err(RouterBuildError::AhoCorasick(e));
            },
        };
        let regex = match regex {
            Ok(regex) => regex,
            Err(e) => {
                return Err(RouterBuildError::Regex(e));
            },
        };
        Ok(PathRouter { exact, prefix, regex, count })
    }

    /// A builder with `default` as the service of index 0.
    pub fn builder<S>(default: S) -> (b: RouterBuilder<S>)
        ensures
            b.default == default,
            b.exact@.len() == 0,
            b.prefix@.len() == 0,
            b.regex@.len() == 0,
    {
        RouterBuilder::with_default(default)
    }

    /// The index of the service for `path`, and where the match ended: at
    /// the end of the path for an exact or regular-expression route, at the
    /// end of the prefix for a prefix route, and at 0 for the default.
    pub fn pick_immu(&self, path: &str) -> (r: (usize, LastRouteMatch))
        ensures
            r.0 == self.route(path@).0,
            r.1.end == self.route(path@).1,
            r.0 < self.services(),
    {
        proof {
            use_type_invariant(self);
            lemma_lookup_below(self.exact.registered(), path@, self.count as int);
        }
        let len: usize = path.as_bytes().len();
        match self.exact.match_(path) {
            Some(slot) => {
                return (slot.0 as usize, LastRouteMatch { end: len });
            },
            None => {},
        }
        match self.prefix.matched(path) {
            Some(m) => {
                return (m.index.0 as usize, LastRouteMatch { end: m.end });
            },
            None => {},
        }
        match self.regex.match_(path) {
            Some(slot) => {
                (slot.0 as usize, LastRouteMatch { end: len })
            },
            None => (0, LastRouteMatch { end: 0 }),
        }
    }
}

/// The path or pattern of each registered route.
pub open spec fn keys_of<S>(entries: Seq<(String, S)>) -> Seq<Seq<char>> {
    Seq::new(entries.len(), |i: int| entries[i].0@)
}

/// There are no prefix routes, or the searcher can be built for them.
pub open spec fn prefixes_build<S>(prefix: Seq<(String, S)>) -> bool {
    prefix.len() == 0 || automaton_builds(trimmed(prefix, PATH_SEP))
}

/// There are no regular-expression routes, or they compile, as a set and
/// each alone.
pub open spec fn regexes_compile<S>(regex: Seq<(String, S)>) -> bool {
    regex.len() == 0 || all_compile(keys_of(regex))
}

/// The services of registered routes.
pub open spec fn services_of<S>(entries: Seq<(String, S)>) -> Seq<S> {
    Seq::new(entries.len(), |i: int| entries[i].1)
}

/// The paths of registered routes, numbered from `base` on.
pub open spec fn numbered<S>(entries: Seq<(String, S)>, base: int) -> Seq<(Seq<char>, Slot)> {
    Seq::new(entries.len(), |i: int| (entries[i].0@, Slot((base + i) as u64)))
}

/// Moves the services of `entries` to the end of `routes` and returns the
/// paths with the indices that the services got.
pub fn number<S>(entries: Vec<(String, S)>, routes: &mut Vec<S>) -> (r: Vec<(String, Slot)>)
    ensures
        final(routes)@ == old(routes)@ + services_of(entries@),
        pairs(r@) == numbered(entries@, old(routes)@.len() as int),
{
    let ghost base = routes@.len() as int;
    let ghost before = routes@;
    let mut r: Vec<(String, Slot)> = Vec::new();
    assert(routes@ =~= before + services_of(entries@).subrange(0, 0));
    for entry in it: entries
        invariant
            base == before.len(),
            routes@ == before + services_of(entries@).subrange(0, it.index() as int),
            r@.len() == it.index(),
            forall|j: int|
                0 <= j < r@.len() ==> (#[trigger] r@[j]).0@ == entries@[j].0@ && r@[j].1 == Slot(
                    (base + j) as u64,
                ),
    {
        let (path, service) = entry;
        let index: usize = routes.len();
        routes.push(service);
        r.push((path, Slot(index as u64)));
        assert(routes@ =~= before + services_of(entries@).subrange(0, it.index() + 1));
    }
    assert(services_of(entries@).subrange(0, entries@.len() as int) =~= services_of(entries@));
    assert(pairs(r@) =~= numbered(entries@, base));
    r
}

impl<S> RouterBuilder<S> {
    /// A builder with `s` as the service of index 0.
    pub fn with_default(s: S) -> (b: Self)
        ensures
            b.default == s,
            b.exact@.len() == 0,
            b.prefix@.len() == 0,
            b.regex@.len() == 0,
    {
        RouterBuilder { exact: Vec::new(), prefix: Vec::new(), regex: Vec::new(), default: s }
    }

    /// Registers a route for exactly `path`.
    pub fn add_exact(self, path: String, s: S) -> (b: Self)
        ensures
            b.exact@ == self.exact@.push((path, s)),
            b.prefix == self.prefix,
            b.regex == self.regex,
            b.default == self.default,
    {
        let mut b = self;
        b.exact.push((path, s));
        b
    }

    /// Registers a route for `path` and everything below it.
    pub fn add_prefix(self, path: String, s: S) -> (b: Self)
        ensures
            b.prefix@ == self.prefix@.push((path, s)),
            b.exact == self.exact,
            b.regex == self.regex,
            b.default == self.default,
    {
        let mut b = self;
        b.prefix.push((path, s));
        b
    }

    /// Registers a route for the paths that a regular expression matches.
    pub fn add_regex(self, path: String, s: S) -> (b: Self)
        ensures
            b.regex@ == self.regex@.push((path, s)),
            b.exact == self.exact,
            b.prefix == self.prefix,
            b.default == self.default,
    {
        let mut b = self;
        b.regex.push((path, s));
        b
    }

    /// Builds the router and the list of services that its indices refer
    /// to: the default first, then the services of the exact, the prefix and
    /// the regular-expression routes, each group in the order of
    /// registration. The router is had exactly when the searcher can be built
    /// for the prefix routes and the regular-expression routes compile; no
    /// routes of a kind need no build. The error is the searcher's exactly
    /// when its build fails, and else the compiler's.
    pub fn build(self) -> (r: Result<(PathRouter, Vec<S>), RouterBuildError>)
        ensures
            r is Ok == (prefixes_build(self.prefix@) && regexes_compile(self.regex@)),
            r matches Err(RouterBuildError::AhoCorasick(_)) == !prefixes_build(self.prefix@),
            r matches Err(RouterBuildError::Regex(_)) == (prefixes_build(self.prefix@)
                && !regexes_compile(self.regex@)),
            r matches Ok(built) ==> {
                let first_prefix = 1 + self.exact@.len();
                let first_regex = first_prefix + self.prefix@.len();
                &&& built.1@ == seq![self.default] + services_of(self.exact@) + services_of(
                    self.prefix@,
                ) + services_of(self.regex@)
                &&& built.0.services() == built.1@.len()
                &&& built.0.exact_routes() == numbered(self.exact@, 1)
                &&& built.0.prefix_routes().len() == self.prefix@.len()
                &&& built.0.prefix_slots().len() == self.prefix@.len()
                &&& forall|i: int|
                    0 <= i < self.prefix@.len() ==> #[trigger] built.0.prefix_routes()[i]
                        == trim_trailing(encode_utf8(self.prefix@[i].0@), PATH_SEP)
                        && built.0.prefix_slots()[i] == Slot((first_prefix + i) as u64)
                &&& compiles(
                    built.0.regex_routes(),
                    built.0.regex_slots(),
                    numbered(self.regex@, first_regex as int),
                )
            },
    {
        let mut routes: Vec<S> = Vec::new();
        routes.push(self.default);
        let exact = number(self.exact, &mut routes);
        let ghost first_prefix = routes@.len() as int;
        let prefix = number(self.prefix, &mut routes);
        let ghost first_regex = routes@.len() as int;
        let regex = number(self.regex, &mut routes);
        let count: usize = routes.len();
        proof {
            assert(pairs(exact@).len() == exact@.len());
            assert(pairs(prefix@).len() == prefix@.len());
            assert(pairs(regex@).len() == regex@.len());
            assert(numbered(self.exact@, 1).len() == self.exact@.len());
            assert(numbered(self.prefix@, first_prefix).len() == self.prefix@.len());
            assert(numbered(self.regex@, first_regex).len() == self.regex@.len());
            assert(services_of(self.exact@).len() == self.exact@.len());
            assert(services_of(self.prefix@).len() == self.prefix@.len());
            assert(services_of(self.regex@).len() == self.regex@.len());
            assert(first_prefix == 1 + self.exact@.len());
            assert(first_regex == first_prefix + self.prefix@.len());
            assert(count == first_regex + self.regex@.len());
            assert(routes@ =~= seq![self.default] + services_of(self.exact@) + services_of(
                self.prefix@,
            ) + services_of(self.regex@));
            assert(pairs_below(pairs(exact@), count as int)) by {
                assert forall|i: int| 0 <= i < pairs(exact@).len() implies (#[trigger] pairs(
                    exact@,
                )[i]).1.0 < count by {
                    assert(pairs(exact@)[i] == numbered(self.exact@, 1)[i]);
                }
            }
            assert forall|i: int| 0 <= i < prefix@.len() implies (#[trigger] prefix@[i]).0@
                == self.prefix@[i].0@ && prefix@[i].1 == Slot((first_prefix + i) as u64) by {
                assert(pairs(prefix@)[i] == numbered(self.prefix@, first_prefix)[i]);
            }
            assert forall|i: int| 0 <= i < regex@.len() implies (#[trigger] pairs(regex@)[i]).1.0
                < count by {
                assert(pairs(regex@)[i] == numbered(self.regex@, first_regex)[i]);
            }
        }
        proof {
            assert(trimmed(prefix@, PATH_SEP) =~= trimmed(self.prefix@, PATH_SEP)) by {
                assert forall|i: int| 0 <= i < prefix@.len() implies trimmed(
                    prefix@,
                    PATH_SEP,
                )[i] == trimmed(self.prefix@, PATH_SEP)[i] by {
                    assert(prefix@[i].0@ == self.prefix@[i].0@);
                }
            }
            assert(sources_of(pairs(regex@)) =~= keys_of(self.regex@)) by {
                assert forall|i: int| 0 <= i < regex@.len() implies sources_of(
                    pairs(regex@),
                )[i] == keys_of(self.regex@)[i] by {
                    assert(pairs(regex@)[i] == numbered(self.regex@, first_regex)[i]);
                }
            }
        }
        let exact_matcher = ExactStrategy::new(exact);
        let prefix_built = PrefixMatcher::<PATH_SEP>::build(prefix);
        let regex_built = (RegexStrategyBuilder { entries: regex }).build();
        proof {
            if prefix_built is Ok {
                let prefix_matcher = prefix_built->Ok_0;
                assert(slots_below(prefix_matcher.slots(), count as int)) by {
                    assert forall|i: int| 0 <= i < prefix_matcher.slots().len() implies (
                    #[trigger] prefix_matcher.slots()[i]).0 < count by {
                        let _ = prefix_matcher.patterns()[i];
                        assert(prefix_matcher.slots()[i] == prefix@[i].1);
                    }
                }
                assert forall|i: int| 0 <= i < self.prefix@.len() implies #[trigger]
                    prefix_matcher.patterns()[i] == trim_trailing(
                    encode_utf8(self.prefix@[i].0@),
                    PATH_SEP,
                ) && prefix_matcher.slots()[i] == Slot((first_prefix + i) as u64) by {
                    assert(prefix@[i].0@ == self.prefix@[i].0@);
                    assert(prefix@[i].1 == Slot((first_prefix + i) as u64));
                    assert(prefix_matcher.patterns()[i] == trim_trailing(
                        encode_utf8(prefix@[i].0@),
                        PATH_SEP,
                    ));
                    assert(prefix_matcher.slots()[i] == prefix@[i].1);
                }
            }
            if regex_built is Ok {
                let regex_matcher = regex_built->Ok_0;
                assert(slots_below(regex_matcher.slots(), count as int)) by {
                    assert forall|i: int| 0 <= i < regex_matcher.slots().len() implies (
                    #[trigger] regex_matcher.slots()[i]).0 < count by {
                        let _ = regex_matcher.sources()[i];
                        assert(regex_matcher.slots()[i] == pairs(regex@)[i].1);
                    }
                }
            }
        }
        match PathRouter::assemble(exact_matcher, prefix_built, regex_built, count) {
            Ok(router) => Ok((router, routes)),
            Err(e) => Err(e),
        }
    }
}

} // verus!
