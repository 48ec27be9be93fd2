use bolt::url::{sanitize_request_path, OwnedUrlPath, ParseError, SanitizationError, UrlPath};

fn parts(path: &UrlPath) -> Vec<String> {
    path.parts()
}

#[test]
fn baseline() {
    let path = UrlPath::parse("/hello/world").unwrap();
    assert_eq!(path.total(), "/hello/world");
    assert_eq!(path.sanitized_path(), "/hello/world");
    assert!(path.pure());
    assert_eq!(parts(&path), vec!["hello".to_string(), "world".to_string()]);
}

#[test]
fn optional_slash() {
    let path = UrlPath::parse("hello/world").unwrap();
    assert_eq!(path.total(), "hello/world");
    assert_eq!(path.sanitized_path(), "/hello/world");
    assert!(!path.pure());
    assert_eq!(parts(&path), vec!["hello".to_string(), "world".to_string()]);
}

#[test]
fn hex() {
    let path = UrlPath::parse("/hello/w%C3%B6rld").unwrap();
    assert_eq!(path.total(), "/hello/w%C3%B6rld");
    assert_eq!(path.sanitized_path(), "/hello/w%C3%B6rld");
    assert!(!path.pure());
    assert_eq!(parts(&path), vec!["hello".to_string(), String::from("wörld")]);
}

#[test]
fn dots() {
    let path = UrlPath::parse("/hello/./test/../world").unwrap();
    assert_eq!(path.sanitized_path(), "/hello/world");
    assert!(!path.pure());
    assert_eq!(parts(&path), vec!["hello".to_string(), "world".to_string()]);
}

#[test]
fn query() {
    let path = UrlPath::parse("/hello/?world=hi").unwrap();
    assert_eq!(path.total(), "/hello/?world=hi");
    assert_eq!(path.sanitized_path(), "/hello?world=hi");
    assert!(!path.pure());
    assert_eq!(parts(&path), vec!["hello".to_string()]);
    assert_eq!(path.query(), Some("world=hi".to_string()));
}

#[test]
fn query_hex() {
    let path = UrlPath::parse("/hello?w%C3%B6rld=hi").unwrap();
    assert_eq!(path.total(), "/hello?w%C3%B6rld=hi");
    assert_eq!(path.sanitized_path(), "/hello?w%C3%B6rld=hi");
    assert!(!path.pure());
    assert_eq!(parts(&path), vec!["hello".to_string()]);
    assert_eq!(path.query(), Some("wörld=hi".to_string()));
}

#[test]
fn hex_exploit() {
    let path = UrlPath::parse("/hello/%2e%2e/world").unwrap();
    assert_eq!(path.total(), "/hello/%2e%2e/world");
    assert_eq!(path.sanitized_path(), "/world");
    assert!(!path.pure());
    assert_eq!(parts(&path), vec!["world".to_string()]);
}

#[test]
fn total_path_is_correct() {
    let path = "/foo/bar/baz".parse::<UrlPath>().unwrap();
    assert_eq!(path.total(), "/foo/bar/baz");
}

#[test]
fn empty_path() {
    let path = "".parse::<UrlPath>().unwrap();
    assert_eq!(path.total(), "");
    assert_eq!(path.parts().len(), 0);
    assert_eq!(path.query(), None);
}

#[test]
fn empty_root_path() {
    let path = "/".parse::<UrlPath>().unwrap();
    assert_eq!(path.total(), "/");
    assert_eq!(path.parts().len(), 0);
    assert_eq!(path.query(), None);
}

#[test]
fn basic_url_path() {
    let path = "/foo/bar/baz".parse::<UrlPath>().unwrap();
    assert_eq!(path.parts().len(), 3);
    assert_eq!(path.parts().as_slice(), &["foo", "bar", "baz"]);
    assert_eq!(path.query(), None);
}

#[test]
fn no_root_path() {
    let path = "foo/bar/baz".parse::<UrlPath>().unwrap();
    assert_eq!(path.parts().len(), 3);
    assert_eq!(path.parts().as_slice(), &["foo", "bar", "baz"]);
    assert_eq!(path.query(), None);
}

#[test]
fn query_url_path() {
    let path = "/foo/bar?baz=qux".parse::<UrlPath>().unwrap();
    assert_eq!(path.parts().len(), 2);
    assert_eq!(path.parts().as_slice(), &["foo", "bar"]);
    assert_eq!(path.query().as_ref().map(|r| r.as_str()), Some("baz=qux"));
}

#[test]
fn scenario_query_is_absent_without_question_mark() {
    let path = UrlPath::parse("/hello/world").unwrap();
    assert_eq!(path.query(), None);
}

#[test]
fn root_is_pure() {
    let path = UrlPath::parse("/").unwrap();
    assert!(path.pure());
    assert_eq!(path.sanitized_path(), "/");
    let path = UrlPath::parse("").unwrap();
    assert!(!path.pure());
    assert_eq!(path.sanitized_path(), "/");
}

#[test]
fn what_is_not_pure() {
    for raw in [
        "/a/",
        "/a//b",
        "/a/./b",
        "/a/../b",
        "/a?",
        "/a#frag",
        "/a?b#frag",
        "/a?b%20c",
        "/%61",
        "a",
    ] {
        let path = UrlPath::parse(raw).unwrap();
        assert!(!path.pure(), "{raw}");
    }
    for raw in ["/a", "/a/b.c", "/a?b=c", "/a?b/c?d", "/...", "/a/..b"] {
        let path = UrlPath::parse(raw).unwrap();
        assert!(path.pure(), "{raw}");
        assert_eq!(path.sanitized_path(), raw);
    }
}

#[test]
fn fragment_is_dropped() {
    let path = UrlPath::parse("/a/b#top of page").unwrap();
    assert_eq!(path.sanitized_path(), "/a/b");
    assert_eq!(path.query(), None);
    let path = UrlPath::parse("/a?x=1#%zz").unwrap();
    assert_eq!(path.sanitized_path(), "/a?x=1");
    assert_eq!(path.query(), Some("x=1".to_string()));
}

#[test]
fn parent_of_root_stays_at_root() {
    let path = UrlPath::parse("/../../etc/passwd").unwrap();
    assert_eq!(path.parts(), vec!["etc".to_string(), "passwd".to_string()]);
    assert_eq!(path.sanitized_path(), "/etc/passwd");
    let path = UrlPath::parse("/a/b/../../..").unwrap();
    assert_eq!(path.parts().len(), 0);
    assert_eq!(path.sanitized_path(), "/");
}

#[test]
fn no_segment_is_empty_or_dots() {
    for raw in ["//a//b/./../c/%2e/%2E%2e/d/", "/./../.", "/%2e%2e/%2e", "a/./b/.."] {
        let path = UrlPath::parse(raw).unwrap();
        for seg in path.parts() {
            assert!(!seg.is_empty() && seg != "." && seg != "..");
        }
    }
}

#[test]
fn escaped_delimiters_stay_escaped() {
    let path = UrlPath::parse("/a%2Fb/c%3Fd%23e%25").unwrap();
    assert_eq!(path.parts(), vec!["a/b".to_string(), "c?d#e%".to_string()]);
    assert_eq!(path.sanitized_path(), "/a%2Fb/c%3Fd%23e%25");
    let path = UrlPath::parse("/a?%23%2f/?").unwrap();
    assert_eq!(path.query(), Some("#//?".to_string()));
    assert_eq!(path.sanitized_path(), "/a?%23//?");
}

#[test]
fn sanitizing_twice_changes_nothing() {
    for raw in [
        "hello/world",
        "/hello/w%C3%B6rld",
        "/hello/./test/../world",
        "/hello/%2e%2e/world",
        "/hello/?world=hi",
        "/a%2fb/%e2%82%ac?x=%e2%82%ac#f",
        "",
        "//",
        "/a?",
    ] {
        let once = UrlPath::parse(raw).unwrap().sanitized_path();
        let twice = UrlPath::parse(&once).unwrap().sanitized_path();
        assert_eq!(once, twice, "{raw}");
    }
}

#[test]
fn malformed_targets_fail() {
    for raw in [
        "/a b",
        "/a%",
        "/a%2",
        "/a%zz",
        "/a%2g",
        "/%ff",
        "/%c3",
        "/a?b c",
        "/a?%",
        "/a?%ff",
        "/ö",
        "/a\u{7f}",
        "/a\tb",
        "/a[b]",
    ] {
        assert_eq!(UrlPath::parse(raw).err(), Some(ParseError::Invalid), "{raw}");
    }
}

#[test]
fn owned_path_keeps_its_text() {
    let owned = OwnedUrlPath::new(String::from("/a/%62?c")).unwrap();
    assert_eq!(owned.inner().total(), "/a/%62?c");
    assert_eq!(owned.inner().parts(), vec!["a".to_string(), "b".to_string()]);
    assert_eq!(owned.inner().query(), Some("c".to_string()));
    assert!(OwnedUrlPath::new(String::from("/%")).is_err());
    assert!(!owned.inner().pure());
    assert!(OwnedUrlPath::new(String::from("/a/b?c")).unwrap().inner().pure());
}

#[test]
fn from_str_tells_purity() {
    let pure: UrlPath = "/a/b".parse().unwrap();
    assert!(pure.pure());
    assert_eq!(pure.total(), "/a/b");
    let dotted: UrlPath = "/a/./b".parse().unwrap();
    assert!(!dotted.pure());
    assert_eq!(dotted.parts(), vec!["a".to_string(), "b".to_string()]);
    assert!("/a b".parse::<UrlPath>().is_err());
}

#[test]
fn request_path_is_sanitised() {
    assert_eq!(sanitize_request_path("/a/../b/%7e?x#y"), Ok("/b/~?x".to_string()));
    assert_eq!(sanitize_request_path("/a b"), Err(SanitizationError));
}

#[test]
fn canonical_path_without_query() {
    let path = UrlPath::parse("/a/b%20c/?q=1").unwrap();
    assert_eq!(path.sanitized_segments(), "/a/b%20c");
    assert_eq!(UrlPath::parse("?q").unwrap().sanitized_segments(), "/");
}

#[test]
fn delimiters_alone() {
    let path = UrlPath::parse("?").unwrap();
    assert_eq!((path.parts().len(), path.query(), path.sanitized_path().as_str()), (0, None, "/"));
    let path = UrlPath::parse("#").unwrap();
    assert_eq!((path.parts().len(), path.query(), path.sanitized_path().as_str()), (0, None, "/"));
    let path = UrlPath::parse("/?#").unwrap();
    assert_eq!(path.sanitized_path(), "/");
    let path = UrlPath::parse("/a?b?c/d").unwrap();
    assert_eq!(path.query(), Some("b?c/d".to_string()));
}
