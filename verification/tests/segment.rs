use bolt::url::path::{escape, hex_digit_of, materialize, read_pieces};
use bolt::url::segment::{
    check_segment, continue_owned, from_hex, hex_digit_byte, plain, read_segment, sub_delims, take,
    unreserved, CheckResult, ParseError, Segment,
};

#[test]
fn byte_classes() {
    for b in b"azAZ09-._~" {
        assert!(unreserved(*b));
    }
    for b in b"!$&'()*+,;=" {
        assert!(sub_delims(*b) && !unreserved(*b) && plain(*b, false));
    }
    for b in b":@" {
        assert!(plain(*b, false));
    }
    for b in b"/?" {
        assert!(!plain(*b, false) && plain(*b, true));
    }
    for b in b"%#[] \"<>\\^`{|}\x7f\x00\x80\xff" {
        assert!(!plain(*b, true), "{b}");
    }
    assert!(hex_digit_byte(b'a') && hex_digit_byte(b'F') && hex_digit_byte(b'0'));
    assert!(!hex_digit_byte(b'g') && !hex_digit_byte(b'G') && !hex_digit_byte(b'/'));
    assert_eq!(from_hex(b'2', b'e'), 0x2e);
    assert_eq!(from_hex(b'F', b'f'), 0xff);
    assert_eq!(from_hex(b'0', b'0'), 0);
    assert_eq!((hex_digit_of(0), hex_digit_of(9), hex_digit_of(10), hex_digit_of(15)), (b'0', b'9', b'A', b'F'));
}

#[test]
fn plain_runs() {
    assert_eq!(take(b"abc/def", 0, 7, false), 3);
    assert_eq!(take(b"abc/def", 0, 7, true), 7);
    assert_eq!(take(b"abc/def", 4, 6, false), 6);
    assert_eq!(take(b"a%20", 0, 4, false), 1);
    assert_eq!(take(b"", 0, 0, false), 0);
}

#[test]
fn segments_borrowed_and_owned() {
    assert!(matches!(
        read_segment(b"/hello/", 1, 6, false),
        Ok(Segment::Borrowed { start: 1, end: 6 })
    ));
    match read_segment(b"/w%C3%B6rld", 1, 11, false) {
        Ok(Segment::Owned(s)) => assert_eq!(s, "wörld"),
        other => panic!("{other:?}"),
    }
    match continue_owned(b"a%41", 0, 1, 4, false) {
        Ok(Segment::Owned(s)) => assert_eq!(s, "aA"),
        other => panic!("{other:?}"),
    }
    assert!(matches!(read_segment(b"a/b", 0, 3, false), Err(ParseError::Invalid)));
    assert!(matches!(read_segment(b"a/b", 0, 3, true), Ok(Segment::Borrowed { .. })));
    assert!(matches!(read_segment(b"%C3", 0, 3, false), Err(ParseError::Invalid)));
    assert!(matches!(read_segment(b"%4", 0, 2, false), Err(ParseError::Invalid)));
}

#[test]
fn segment_checks() {
    let raw = b"/./../a/";
    assert_eq!(check_segment(raw, &Segment::Borrowed { start: 1, end: 2 }), CheckResult::Empty);
    assert_eq!(check_segment(raw, &Segment::Borrowed { start: 3, end: 5 }), CheckResult::Pop);
    assert_eq!(check_segment(raw, &Segment::Borrowed { start: 6, end: 7 }), CheckResult::Keep);
    assert_eq!(check_segment(raw, &Segment::Borrowed { start: 8, end: 8 }), CheckResult::Empty);
    assert_eq!(check_segment(raw, &Segment::Owned("..".to_string())), CheckResult::Pop);
    assert_eq!(check_segment(raw, &Segment::Owned(".".to_string())), CheckResult::Empty);
    assert_eq!(check_segment(raw, &Segment::Owned("...".to_string())), CheckResult::Keep);
}

#[test]
fn escaping_and_materialising() {
    let mut out = b"x".to_vec();
    escape(&mut out, "a b/ö?".as_bytes(), 0, 7, false);
    assert_eq!(out, b"xa%20b%2F%C3%B6%3F");
    let mut out = Vec::new();
    escape(&mut out, b"a/b?c#%", 0, 7, true);
    assert_eq!(out, b"a/b?c%23%25");
    assert_eq!(materialize(b"/abc/", &Segment::Borrowed { start: 1, end: 4 }), "abc");
    assert_eq!(materialize(b"", &Segment::Owned("ö".to_string())), "ö");
}

#[test]
fn pieces_of_a_path() {
    let (segments, canonical) = read_pieces(b"/a/b?c", 4, &[0, 2]).unwrap();
    assert_eq!(segments.len(), 2);
    assert!(canonical);
    let (segments, canonical) = read_pieces(b"/a/../b", 7, &[0, 2, 5]).unwrap();
    assert_eq!(segments.len(), 1);
    assert!(!canonical);
    assert!(read_pieces(b"/a b", 4, &[0]).is_err());
}
