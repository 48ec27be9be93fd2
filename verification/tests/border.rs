use bolt::url::border::{
    find_border, find_border_fallback, find_slashes, find_slashes_fallback, Positions,
};

#[test]
fn border_of_query_and_fragment() {
    assert_eq!(find_border(b"/a/b"), (None, None));
    assert_eq!(find_border(b"/a?b"), (Some(2), None));
    assert_eq!(find_border(b"/a#b"), (None, Some(2)));
    assert_eq!(find_border(b"/a?b?c#d#e"), (Some(2), Some(6)));
    assert_eq!(find_border(b"/a#b?c"), (None, Some(2)));
    assert_eq!(find_border(b""), (None, None));
}

#[test]
fn border_from_a_start() {
    assert_eq!(find_border_fallback(b"?a?b#c", 1), (Some(2), Some(4)));
    assert_eq!(find_border_fallback(b"#a?b", 1), (Some(2), None));
    assert_eq!(find_border_fallback(b"ab", 2), (None, None));
}

#[test]
fn border_in_long_input() {
    let mut long = vec![b'a'; 40];
    long[17] = b'?';
    long[33] = b'#';
    assert_eq!(find_border(&long), (Some(17), Some(33)));
}

#[test]
fn slashes_before_the_delimiter() {
    assert_eq!(find_slashes(b"/a/b/c", None).as_slice(), [0, 2, 4]);
    assert_eq!(find_slashes(b"/a/b?c/d", Some(4)).as_slice(), [0, 2]);
    assert_eq!(find_slashes(b"abc", None).as_slice(), [0usize; 0]);
    assert_eq!(find_slashes(b"//", Some(9)).as_slice(), [0, 1]);
    assert_eq!(find_slashes(b"//", Some(0)).as_slice(), [0usize; 0]);
    let long = vec![b'/'; 20];
    assert_eq!(find_slashes(&long, None).as_slice(), (0..20).collect::<Vec<usize>>());
}

#[test]
fn slashes_are_appended() {
    let first = find_slashes_fallback(b"/a/b/c", 0, 1, Positions::new());
    assert_eq!(first.as_slice(), [0]);
    assert_eq!(find_slashes_fallback(b"/a/b/c", 1, 5, first).as_slice(), [0, 2, 4]);
}
