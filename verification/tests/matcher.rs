use bolt::matcher::hierarchy::{DOMAIN_SEP, PATH_SEP};
use bolt::matcher::{
    Builder, DomainLevelsStrategy, ExactStrategy, LastRouteMatch, Matcher, NaiveMatcher,
    PathRouter, PrefixMatch, PrefixMatcher, RegexStrategy, RouterBuildError, RouterBuilder, Slot,
    Strategy, SuffixMatcher,
};
use bolt::text::{identity, normalize_str};

fn registered_patterns(entries: &[(String, Slot)]) -> Vec<String> {
    entries.iter().map(|e| e.0.clone()).collect()
}

fn registered_slots(entries: &[(String, Slot)]) -> Vec<Slot> {
    entries.iter().map(|e| e.1).collect()
}

fn entries(pairs: &[(&str, u64)]) -> Vec<(String, Slot)> {
    pairs.iter().map(|(p, s)| (p.to_string(), Slot(*s))).collect()
}

#[test]
fn exact_builder() {
    let builder = ExactStrategy::builder();

    assert_eq!(builder.entries.len(), 0);
    assert_eq!(builder.entries.into_iter().collect::<Vec<_>>(), vec![]);
}

#[test]
fn exact_builder_add() {
    let mut strategy = ExactStrategy::builder();
    strategy.add("hi.com", Slot(1));

    assert_eq!(strategy.entries.len(), 1);
    assert_eq!(
        strategy.entries.into_iter().collect::<Vec<_>>(),
        vec![("hi.com".to_string(), Slot(1))]
    );
}

#[test]
fn exact_build() {
    let strategy = ExactStrategy::builder()
        .add_owned("hi.com", Slot(1))
        .add_owned("www.hi.com", Slot(2))
        .build()
        .unwrap();

    assert_eq!(strategy.entries().len(), 2);

    let mut vec = strategy.entries().clone();
    vec.sort_by(|x, y| x.1 .0.cmp(&y.1 .0));

    assert_eq!(
        vec,
        vec![("hi.com".to_string(), Slot(1)), ("www.hi.com".to_string(), Slot(2)),]
    );
}

#[test]
fn exact_match() {
    let strategy = ExactStrategy::builder()
        .add_owned("hi.com", Slot(1))
        .add_owned("www.hi.com", Slot(2))
        .build()
        .unwrap();

    assert_eq!(strategy.match_("hi.com"), Some(Slot(1)));
    assert_eq!(strategy.match_("www.hi.com"), Some(Slot(2)));
    assert_eq!(strategy.match_("www.hi.com.com"), None);
    assert_eq!(strategy.match_("www.www.hi.com"), None);
}

#[test]
fn exact_later_registration_wins() {
    let strategy = ExactStrategy::builder()
        .add_owned("a", Slot(1))
        .add_owned("b", Slot(2))
        .add_owned("a", Slot(3))
        .build()
        .unwrap();
    assert_eq!(strategy.match_("a"), Some(Slot(3)));
    assert_eq!(strategy.match_("b"), Some(Slot(2)));
    assert_eq!(strategy.match_(""), None);
}

#[test]
fn pattern_builder() {
    let builder = RegexStrategy::builder();

    assert_eq!(registered_patterns(&builder.entries), Vec::<String>::new());
    assert_eq!(registered_slots(&builder.entries), Vec::<Slot>::new());
}

#[test]
fn pattern_builder_add() {
    let mut builder = RegexStrategy::builder();
    builder.add("[a-z]{3}", Slot(0));

    assert_eq!(registered_patterns(&builder.entries), vec!["[a-z]{3}".to_string()]);
    assert_eq!(registered_slots(&builder.entries), vec![Slot(0)]);
}

#[test]
fn pattern_build() {
    let strategy = RegexStrategy::builder()
        .add_owned("[a-z]{3}", Slot(0))
        .add_owned("[0-9]{3}", Slot(1))
        .build()
        .unwrap();

    assert_eq!(
        strategy.patterns(),
        &["[a-z]{3}".to_string(), "[0-9]{3}".to_string()]
    );
    assert_eq!(strategy.table(), &vec![Slot(0), Slot(1)]);
}

#[test]
fn pattern_match() {
    let strategy = RegexStrategy::builder()
        .add_owned("[a-z]{3}", Slot(0))
        .add_owned("[0-9]{3}", Slot(1))
        .build()
        .unwrap();

    assert_eq!(strategy.match_("abc"), Some(Slot(0)));
    assert_eq!(strategy.match_("xyz"), Some(Slot(0)));
    assert_eq!(strategy.match_("123"), Some(Slot(1)));
    assert_eq!(strategy.match_("789"), Some(Slot(1)));

    assert_eq!(strategy.match_("ab1"), None);
    assert_eq!(strategy.match_("abcd"), None);
    assert_eq!(strategy.match_("1234"), None);
    assert_eq!(strategy.match_(""), None);
}

#[test]
fn pattern_first_full_match_wins() {
    let strategy = RegexStrategy::builder()
        .add_owned("[a-z]{3}", Slot(0))
        .add_owned("[a-z]+", Slot(1))
        .add_owned("[a-z]*", Slot(2))
        .build()
        .unwrap();
    assert_eq!(strategy.match_("abc"), Some(Slot(0)));
    assert_eq!(strategy.match_("abcd"), Some(Slot(1)));
    assert_eq!(strategy.match_(""), Some(Slot(2)));
    assert_eq!(strategy.match_("ab1"), None);
    assert_eq!(strategy.match_("äöü"), None);
}

#[test]
fn pattern_that_does_not_compile() {
    assert!(RegexStrategy::builder().add_owned("(", Slot(0)).build().is_err());
}

#[test]
fn suffix_scenario() {
    let m = SuffixMatcher::<DOMAIN_SEP>::build(entries(&[
        ("example.com", 10),
        ("www.example.com", 20),
    ]))
    .unwrap();
    assert_eq!(m.match_("example.com"), Some(Slot(10)));
    assert_eq!(m.match_("www.example.com"), Some(Slot(20)));
    assert_eq!(m.match_("sub.example.com"), Some(Slot(10)));
    assert_eq!(m.match_("evilexample.com"), None);
    assert_eq!(m.match_("evil.notexample.com"), None);
    assert_eq!(m.match_("example.com.evil"), None);
    assert_eq!(m.match_("com"), None);
    assert_eq!(m.match_(""), None);
    assert_eq!(m.match_("a.www.example.com"), Some(Slot(20)));
}

#[test]
fn suffix_order_of_registration_does_not_matter() {
    let m = SuffixMatcher::<DOMAIN_SEP>::build(entries(&[
        ("www.example.com", 20),
        ("example.com", 10),
        ("com", 5),
    ]))
    .unwrap();
    assert_eq!(m.match_("www.example.com"), Some(Slot(20)));
    assert_eq!(m.match_("sub.example.com"), Some(Slot(10)));
    assert_eq!(m.match_("other.com"), Some(Slot(5)));
    assert_eq!(m.find("www.example.com"), Some(0));
}

#[test]
fn suffix_first_of_equal_patterns_wins() {
    let m = SuffixMatcher::<DOMAIN_SEP>::build(entries(&[("a.b", 1), ("a.b", 2)])).unwrap();
    assert_eq!(m.match_("x.a.b"), Some(Slot(1)));
}

#[test]
fn suffix_patterns_are_registered_as_they_are() {
    let m = SuffixMatcher::<DOMAIN_SEP>::build(entries(&[(".a", 1), ("a", 2)])).unwrap();
    assert_eq!(m.match_("a"), Some(Slot(2)));
    assert_eq!(m.match_(".a"), Some(Slot(1)));
    assert_eq!(m.match_("x.a"), Some(Slot(2)));
    assert_eq!(m.match_("x..a"), Some(Slot(1)));
    let m = SuffixMatcher::<DOMAIN_SEP>::build(entries(&[
        (".sub.example.com", 1),
        ("example.com", 2),
        ("www.example.com", 3),
    ]))
    .unwrap();
    assert_eq!(m.match_("sub.example.com"), Some(Slot(2)));
    let m = SuffixMatcher::<DOMAIN_SEP>::build(entries(&[(".example.com", 1)])).unwrap();
    assert_eq!(m.match_("example.com"), None);
    assert_eq!(m.match_("a.example.com"), None);
    assert_eq!(m.match_(".example.com"), Some(Slot(1)));
}

#[test]
fn suffix_empty_pattern_matches_after_a_separator() {
    let m = SuffixMatcher::<DOMAIN_SEP>::build(entries(&[("", 1)])).unwrap();
    assert_eq!(m.match_("example.com."), Some(Slot(1)));
    assert_eq!(m.match_(""), Some(Slot(1)));
    assert_eq!(m.match_("example.com"), None);
}

#[test]
fn domain_levels_strategy() {
    let m = DomainLevelsStrategy::builder()
        .add_owned("www.example.com", Slot(1))
        .add_owned("example.com", Slot(2))
        .build()
        .unwrap();
    assert_eq!(m.match_("beispiel.de"), None);
    assert_eq!(m.match_("example.com"), Some(Slot(2)));
    assert_eq!(m.match_("subdomain.example.com"), Some(Slot(2)));
    assert_eq!(m.match_("www.example.com"), Some(Slot(1)));
}

#[test]
fn prefix_longest_wins() {
    let m = PrefixMatcher::<PATH_SEP>::build(entries(&[("/a", 1), ("/a/b", 2), ("/", 3)]))
        .unwrap();
    assert_eq!(m.matched("/a"), Some(PrefixMatch { index: Slot(1), end: 2 }));
    assert_eq!(m.matched("/a/b"), Some(PrefixMatch { index: Slot(2), end: 4 }));
    assert_eq!(m.matched("/a/b/c"), Some(PrefixMatch { index: Slot(2), end: 4 }));
    assert_eq!(m.matched("/a/c"), Some(PrefixMatch { index: Slot(1), end: 2 }));
    assert_eq!(m.matched("/ab"), None);
    assert_eq!(m.matched("/"), Some(PrefixMatch { index: Slot(3), end: 1 }));
    assert_eq!(m.matched("a"), None);
    assert_eq!(m.match_("/a/b/c"), Some(Slot(2)));
}

#[test]
fn prefix_trailing_separator_is_dropped() {
    let m = PrefixMatcher::<PATH_SEP>::new(
        vec!["/api/".to_string(), "/x//".to_string(), "/".to_string()],
        vec![Slot(1), Slot(2), Slot(3)],
    )
    .unwrap();
    assert_eq!(m.match_("/api"), Some(Slot(1)));
    assert_eq!(m.match_("/api/x"), Some(Slot(1)));
    assert_eq!(m.match_("/apix"), None);
    assert_eq!(m.match_("/x"), None);
    assert_eq!(m.match_("/x//"), Some(Slot(2)));
    assert_eq!(m.match_("/x///y"), Some(Slot(2)));
    assert_eq!(m.match_("/"), Some(Slot(3)));
}

#[test]
fn composite_order() {
    let fixed = PrefixMatcher::<PATH_SEP>::build(entries(&[("/a", 3)])).unwrap();
    let m = NaiveMatcher::new(
        entries(&[("/a", 1), ("/a/b", 2)]),
        Some(fixed),
        entries(&[("/r[0-9]+", 4)]),
        Some(Slot(0)),
    )
    .unwrap();
    assert_eq!(m.match_("/a"), Some(Slot(1)));
    assert_eq!(m.match_("/a/b"), Some(Slot(2)));
    assert_eq!(m.match_("/a/c"), Some(Slot(3)));
    assert_eq!(m.match_("/ab"), Some(Slot(0)));
    assert_eq!(m.match_("/r42"), Some(Slot(4)));
    assert_eq!(m.match_("/r42x"), Some(Slot(0)));
}

#[test]
fn composite_for_domains() {
    let fixed = SuffixMatcher::<DOMAIN_SEP>::build(entries(&[
        ("example.com", 10),
        ("www.example.com", 20),
    ]))
    .unwrap();
    let m = NaiveMatcher::new(Vec::new(), Some(fixed), Vec::new(), None).unwrap();
    assert!(m.exact.is_none());
    assert!(m.regex.is_none());
    assert_eq!(m.match_("example.com"), Some(Slot(10)));
    assert_eq!(m.match_("www.example.com"), Some(Slot(20)));
    assert_eq!(m.match_("sub.example.com"), Some(Slot(10)));
    assert_eq!(m.match_("evilexample.com"), None);
}

#[test]
fn composite_with_a_bad_pattern() {
    let r = NaiveMatcher::<SuffixMatcher<DOMAIN_SEP>>::new(
        Vec::new(),
        None,
        entries(&[("[", 1)]),
        None,
    );
    assert!(r.is_err());
}

#[test]
fn router_picks_by_precedence() {
    let (router, services) = PathRouter::builder("default")
        .add_exact("/a".to_string(), "exact a")
        .add_exact("/a/b".to_string(), "exact a b")
        .add_prefix("/a".to_string(), "below a")
        .add_prefix("/static/".to_string(), "files")
        .add_regex("/u/[0-9]+".to_string(), "user")
        .build()
        .unwrap();
    assert_eq!(
        services,
        vec!["default", "exact a", "exact a b", "below a", "files", "user"]
    );
    assert_eq!(router.pick_immu("/a"), (1, LastRouteMatch { end: 2 }));
    assert_eq!(router.pick_immu("/a/b"), (2, LastRouteMatch { end: 4 }));
    assert_eq!(router.pick_immu("/a/c"), (3, LastRouteMatch { end: 2 }));
    assert_eq!(router.pick_immu("/ab"), (0, LastRouteMatch { end: 0 }));
    assert_eq!(router.pick_immu("/static/css/x.css"), (4, LastRouteMatch { end: 7 }));
    assert_eq!(router.pick_immu("/u/17"), (5, LastRouteMatch { end: 5 }));
    assert_eq!(router.pick_immu("/u/17/x"), (0, LastRouteMatch { end: 0 }));
}

#[test]
fn router_with_only_a_default() {
    let (router, services) = RouterBuilder::with_default(7u8).build().unwrap();
    assert_eq!(services, vec![7u8]);
    assert_eq!(router.pick_immu("/anything"), (0, LastRouteMatch { end: 0 }));
}

#[test]
fn router_build_errors() {
    let r = PathRouter::builder(0u8).add_regex("(".to_string(), 1).build();
    assert!(matches!(r, Err(RouterBuildError::Regex(_))));
}

#[test]
fn normalizing_composes_characters() {
    assert_eq!(normalize_str("e\u{301}"), "\u{e9}");
    assert_eq!(normalize_str("abc"), "abc");
    let m = ExactStrategy::builder()
        .add_unnormalized_owned("cafe\u{301}.example", Slot(1))
        .build()
        .unwrap();
    assert_eq!(m.match_("caf\u{e9}.example"), Some(Slot(1)));
    assert_eq!(m.match_("cafe\u{301}.example"), None);
}

#[test]
fn identity_returns_its_argument() {
    assert_eq!(identity(7u32), 7u32);
    assert_eq!(identity("x"), "x");
}

#[test]
fn whole_input_coverage() {
    assert!(RegexStrategy::covers_whole(Some((0, 3)), 3));
    assert!(!RegexStrategy::covers_whole(Some((0, 2)), 3));
    assert!(!RegexStrategy::covers_whole(Some((1, 3)), 3));
    assert!(!RegexStrategy::covers_whole(None, 0));
    assert!(RegexStrategy::covers_whole(Some((0, 0)), 0));
}

#[test]
fn matchers_for_nothing_are_always_had() {
    let m = SuffixMatcher::<DOMAIN_SEP>::build(Vec::new()).unwrap();
    assert_eq!(m.match_("example.com"), None);
    assert_eq!(m.find(""), None);
    let m = PrefixMatcher::<PATH_SEP>::build(Vec::new()).unwrap();
    assert_eq!(m.matched("/a"), None);
    let m = PrefixMatcher::<PATH_SEP>::new(Vec::new(), Vec::new()).unwrap();
    assert_eq!(m.match_(""), None);
    let m = RegexStrategy::new(Vec::new(), Vec::new()).unwrap();
    assert_eq!(m.match_("abc"), None);
    assert_eq!(m.find(""), None);
    let m = RegexStrategy::builder().build().unwrap();
    assert_eq!(m.match_(""), None);
    let m = DomainLevelsStrategy::builder().build().unwrap();
    assert_eq!(m.match_("example.com"), None);
    let (router, services) =
        PathRouter::builder("default").add_exact("/a".to_string(), "a").build().unwrap();
    assert_eq!(services, vec!["default", "a"]);
    assert_eq!(router.pick_immu("/a"), (1, LastRouteMatch { end: 2 }));
    assert_eq!(router.pick_immu("/b"), (0, LastRouteMatch { end: 0 }));
}

#[test]
fn router_on_parts_that_failed() {
    let exact = ExactStrategy::builder().build().unwrap();
    let prefix = PrefixMatcher::<PATH_SEP>::build(Vec::new());
    let regex = RegexStrategy::new(vec!["(".to_string()], vec![Slot(0)]);
    assert!(matches!(
        PathRouter::assemble(exact, prefix, regex, 1),
        Err(RouterBuildError::Regex(_))
    ));
    let exact = ExactStrategy::builder().build().unwrap();
    let prefix = PrefixMatcher::<PATH_SEP>::build(entries(&[("/a", 0)]));
    let regex = RegexStrategy::new(Vec::new(), Vec::new());
    let router = PathRouter::assemble(exact, prefix, regex, 1).unwrap();
    assert_eq!(router.pick_immu("/a/b"), (0, LastRouteMatch { end: 2 }));
}
