use bolt::lexer::cursor::{is_digit_char, is_hex_char, is_letter_char, is_space_char, Util};
use bolt::lexer::report::error;
use bolt::lexer::state::{digit_of, parse_numeral, State, StringType};
use bolt::lexer::{EqualityType, ErrorKind, Token};
use bolt::text::{ascii_string, char_width, push_decimal, push_repeated, substring, to_chars};

fn chars(s: &str) -> Vec<char> {
    s.chars().collect()
}

fn cursor(s: &str, at: usize) -> Util {
    Util { src: chars(s), state: State::Idle, current: at, cnext: at }
}

#[test]
fn characters_and_substrings() {
    assert_eq!(to_chars("aö🦊"), vec!['a', 'ö', '🦊']);
    assert_eq!(substring(&chars("hello"), 1, 3), "el");
    assert_eq!(substring(&chars("hello"), 2, 2), "");
    assert_eq!(ascii_string(b"hello", 1, 4), "ell");
}

#[test]
fn widths_in_utf8() {
    assert_eq!(char_width('a'), 1);
    assert_eq!(char_width('\u{7f}'), 1);
    assert_eq!(char_width('\u{80}'), 2);
    assert_eq!(char_width('ö'), 2);
    assert_eq!(char_width('\u{7ff}'), 2);
    assert_eq!(char_width('\u{800}'), 3);
    assert_eq!(char_width('€'), 3);
    assert_eq!(char_width('\u{ffff}'), 3);
    assert_eq!(char_width('\u{10000}'), 4);
    assert_eq!(char_width('🦊'), 4);
}

#[test]
fn decimal_and_repetition() {
    let mut s = String::from("n=");
    push_decimal(&mut s, 0);
    push_decimal(&mut s, 7);
    push_decimal(&mut s, 1203);
    push_decimal(&mut s, u64::MAX);
    assert_eq!(s, "n=07120318446744073709551615");
    let mut s = String::new();
    push_repeated(&mut s, '-', 3);
    push_repeated(&mut s, '^', 0);
    push_repeated(&mut s, '^', 2);
    assert_eq!(s, "---^^");
}

#[test]
fn character_classes() {
    assert!(is_letter_char('a') && is_letter_char('Z') && !is_letter_char('ä') && !is_letter_char('1'));
    assert!(is_digit_char('0') && is_digit_char('9') && !is_digit_char('a'));
    assert!(is_hex_char('f') && is_hex_char('A') && is_hex_char('7') && !is_hex_char('g'));
    assert!(is_space_char(' ') && is_space_char('\t') && is_space_char('\u{3000}'));
    assert!(!is_space_char('\n') && !is_space_char('\r') && !is_space_char('a'));
    for c in ['\u{0B}', '\u{0C}', '\u{85}', '\u{A0}', '\u{1680}', '\u{2000}', '\u{200A}', '\u{2028}', '\u{2029}', '\u{202F}', '\u{205F}'] {
        assert!(is_space_char(c) && c.is_whitespace());
    }
    assert!(!is_space_char('\u{200B}'));
    assert_eq!(digit_of('7'), 7);
    assert_eq!(digit_of('a'), 10);
    assert_eq!(digit_of('F'), 15);
    assert_eq!(digit_of('g'), 0);
}

#[test]
fn numerals() {
    assert_eq!(parse_numeral(&chars("x123y"), 1, 4), Some(123));
    assert_eq!(parse_numeral(&chars("007"), 0, 3), Some(7));
    assert_eq!(parse_numeral(&chars(""), 0, 0), Some(0));
    assert_eq!(parse_numeral(&chars("18446744073709551615"), 0, 20), Some(u64::MAX));
    assert_eq!(parse_numeral(&chars("18446744073709551616"), 0, 20), None);
    assert_eq!(parse_numeral(&chars("99999999999999999999"), 0, 20), None);
}

#[test]
fn error_location() {
    let src = chars("ab\ncd\r\nef\rgh");
    let e = error(&src, ErrorKind::EarlyEof, 4, 1, String::from("x"));
    assert_eq!((e.line, e.line_raw.as_str(), e.pos), (1, "cd", 1..2));
    let e = error(&src, ErrorKind::EarlyEof, 8, 2, String::from("x"));
    assert_eq!((e.line, e.line_raw.as_str(), e.pos), (2, "ef", 1..3));
    let e = error(&src, ErrorKind::EarlyEof, 12, 1, String::from("x"));
    assert_eq!((e.line, e.line_raw.as_str(), e.pos), (3, "gh", 2..3));
    let e = error(&src, ErrorKind::EarlyEof, 0, 1, String::from("why"));
    assert_eq!((e.line, e.line_raw.as_str(), e.pos, e.reason.as_str()), (0, "ab", 0..1, "why"));
    let e = error(&src, ErrorKind::EarlyEof, 6, 1, String::from("x"));
    assert_eq!((e.line, e.line_raw.as_str(), e.pos), (1, "cd", 3..4));
}

#[test]
fn cursor_reads() {
    let mut u = cursor("ab", 0);
    assert!(u.is_available());
    assert_eq!(u.peek(), Some('a'));
    assert_eq!(u.next(), Some('a'));
    assert_eq!((u.current, u.cnext), (0, 1));
    u.advance();
    assert_eq!((u.current, u.cnext), (1, 2));
    assert!(!u.is_available());
    assert_eq!(u.peek(), None);
    assert_eq!(u.next(), None);
    assert_eq!((u.current, u.cnext), (2, 2));
}

#[test]
fn cursor_reads_strings() {
    let mut u = cursor("\"a\\tb\" rest", 1);
    assert_eq!(u.read_double().ok(), Some("a\tb".to_string()));
    assert_eq!(u.cnext, 6);
    let mut u = cursor("'it''s' rest", 1);
    assert_eq!(u.read_single().ok(), Some("it's".to_string()));
    assert_eq!(u.cnext, 7);
    let mut u = cursor("x41", 1);
    assert_eq!(u.read_hex_escape().ok(), Some('A'));
    let mut u = cursor("{20AC}", 0);
    assert_eq!(u.read_unicode_escape().ok(), Some('€'));
    let mut u = cursor("n", 0);
    assert_eq!(u.read_escape().ok(), Some('\n'));
    let mut u = cursor("{1}", 0);
    let f = u.read_unicode_escape().err().unwrap();
    assert_eq!((f.kind, f.at, f.width), (ErrorKind::UnexpectedCharacter('}'), 2, 1));
    assert_eq!(u.cnext, 3);
}

#[test]
fn states_become_tokens() {
    let src = chars("abc 12");
    let mut u = Util { src, state: State::Statement { start: 0, end: 0 }, current: 3, cnext: 4 };
    assert_eq!(u.submit(State::Spacer).ok(), Some(Some(Token::Statement("abc".to_string()))));
    assert!(u.state.is_spacer());
    u.current = 4;
    assert_eq!(u.submit(State::Numeral { start: 4, end: 4 }).ok(), Some(Some(Token::Spacer)));
    assert!(u.state.is_numeral() && !u.state.is_suffix() && !u.state.is_statement());
    u.current = 6;
    assert_eq!(u.submit(State::Idle).ok(), Some(Some(Token::Numeral(12))));
    assert_eq!(u.submit(State::Dot).ok(), Some(None));
    let mut s = State::Suffix { start: 1, end: 1 };
    s.complete(3);
    assert!(matches!(s, State::Suffix { start: 1, end: 3 }));
    let old = s.swap(State::EqualitySwitch(EqualityType::from('~')));
    assert!(matches!(old, State::Suffix { start: 1, end: 3 }));
    assert!(matches!(s, State::EqualitySwitch(EqualityType::Regex)));
    let mut s = State::String { start: 0, end: 4, content: "hi".to_string(), kind: StringType::SingleQuote };
    let t = s.tokenize(State::Idle, &chars("'hi'")).ok();
    assert_eq!(t, Some(Some(Token::String { content: "hi".to_string(), format: false })));
}
