use bolt::lexer::token::ErrorBundle;
use bolt::lexer::{tokenize, BlockType, EqualityType, Error, ErrorKind, Token};

fn lex(src: &str) -> Vec<Token> {
    tokenize(src).collect().into_iter().map(|t| t.unwrap()).collect()
}

fn items(src: &str) -> Vec<Result<Token, Error>> {
    tokenize(src).collect()
}

fn string(content: &str, format: bool) -> Token {
    Token::String { content: content.to_string(), format }
}

fn statement(text: &str) -> Token {
    Token::Statement(text.to_string())
}

fn first_error(src: &str) -> Error {
    items(src).into_iter().find_map(|i| i.err()).unwrap()
}

#[test]
fn string_unit_test_macro() {
    assert_eq!(
        string("test", false),
        Token::String { content: "test".to_string(), format: false }
    )
}

#[test]
fn unit_test_macro() {
    assert_eq!(
        string("test", false),
        Token::String { content: "test".to_string(), format: false }
    )
}

#[test]
fn string_basic() {
    assert_eq!(lex(r#"''"#), vec![string("", false), Token::Eof]);
    assert_eq!(lex(r#"'Hello world'"#), vec![string("Hello world", false), Token::Eof],);
    assert_eq!(lex(r#"'123 '' test'"#), vec![string("123 ' test", false), Token::Eof],);
}

#[test]
fn string_advanced() {
    assert_eq!(lex(r#""""#), vec![string("", true), Token::Eof]);
    assert_eq!(lex(r#""Hello world""#), vec![string("Hello world", true), Token::Eof],);
    assert_eq!(lex(r#""123 \t test""#), vec![string("123 \t test", true), Token::Eof],);
    assert_eq!(lex(r#""\x30""#), vec![string("0", true), Token::Eof],);
    assert_eq!(
        lex(r#""\x30\x31\x32\x33\x34\x35\x36\x37\x38\x39""#),
        vec![string("0123456789", true), Token::Eof],
    );
    assert_eq!(
        lex(r#""\u{1F98A} fox; \u{1F43A} wolf""#),
        vec![string("🦊 fox; 🐺 wolf", true), Token::Eof],
    );
}

#[test]
fn mod_eof() {
    assert_eq!(lex(""), vec![Token::Eof]);
}

#[test]
fn newline_line_feed() {
    assert_eq!(lex("\n"), vec![Token::NewLine, Token::Eof]);
}

#[test]
fn newline_carriage_return() {
    assert_eq!(lex("\r"), vec![Token::NewLine, Token::Eof]);
}

#[test]
fn newline_combined() {
    assert_eq!(lex("\r\n"), vec![Token::NewLine, Token::Eof]);
    assert_eq!(lex("\n\r"), vec![Token::NewLine, Token::NewLine, Token::Eof]);
}

#[test]
fn numeral_single() {
    assert_eq!(lex("1234"), vec![Token::Numeral(1234), Token::Eof]);
}

#[test]
fn numeral_combined_space() {
    assert_eq!(
        lex("123 123"),
        vec![Token::Numeral(123), Token::Spacer, Token::Numeral(123), Token::Eof]
    );
}

#[test]
fn numeral_combined_complex() {
    assert_eq!(
        lex("123 u 321"),
        vec![
            Token::Numeral(123),
            Token::Spacer,
            statement("u"),
            Token::Spacer,
            Token::Numeral(321),
            Token::Eof
        ]
    );
}

#[test]
fn numeral_suffix() {
    assert_eq!(
        lex("123u"),
        vec![Token::Numeral(123), Token::Suffix("u".to_string()), Token::Eof]
    );

    assert!(matches!(
        first_error("123u32"),
        Error {
            kind: ErrorKind::UnexpectedCharacter('3'),
            line: 0,
            pos: std::ops::Range { start: 4, end: 5 },
            ..
        }
    ));
}

#[test]
fn statement_single() {
    assert_eq!(lex("statement"), vec![statement("statement"), Token::Eof]);
}

#[test]
fn statement_combined_space() {
    assert_eq!(
        lex("hello world"),
        vec![statement("hello"), Token::Spacer, statement("world"), Token::Eof]
    );
}

#[test]
fn statement_combined_dot() {
    assert_eq!(
        lex("tls.session"),
        vec![statement("tls"), Token::Dot, statement("session"), Token::Eof]
    );
}

#[test]
fn statement_combined_newline() {
    assert_eq!(
        lex("hi\nyou"),
        vec![statement("hi"), Token::NewLine, statement("you"), Token::Eof]
    );
}

#[test]
fn statement_numbers() {
    assert_eq!(
        lex("hi m8\n"),
        vec![statement("hi"), Token::Spacer, statement("m8"), Token::NewLine, Token::Eof]
    )
}

#[test]
fn empty_single_quoted_string() {
    assert_eq!(lex("''"), vec![string("", false), Token::Eof]);
    assert_eq!(lex("'a ''b'"), vec![string("a 'b", false), Token::Eof]);
}

#[test]
fn unicode_escape_gives_the_character() {
    assert_eq!(lex("\"\\u{1F98A} fox\""), vec![string("🦊 fox", true), Token::Eof]);
}

#[test]
fn digits_after_a_suffix_are_an_error() {
    let all = items("123u32");
    assert_eq!(all.len(), 5);
    assert_eq!(all[0].as_ref().unwrap(), &Token::Numeral(123));
    assert_eq!(all[1].as_ref().unwrap(), &Token::Suffix("u".to_string()));
    let e = all[2].as_ref().unwrap_err();
    assert_eq!(e.kind, ErrorKind::UnexpectedCharacter('3'));
    assert_eq!(e.reason, "A number suffix can not contain numbers");
    assert_eq!(e.line, 0);
    assert_eq!(e.line_raw, "123u32");
    assert_eq!(e.pos, 4..5);
    assert_eq!(all[3].as_ref().unwrap(), &Token::Numeral(2));
    assert_eq!(all[4].as_ref().unwrap(), &Token::Eof);
}

#[test]
fn lazy_and_eager_collection_agree() {
    let src = "listen 8080 { tls.session = 'on' }\r\nsize 30s \"a\\tb\" ~^$_ §";
    let eager = items(src);
    let mut lazy = Vec::new();
    let mut t = tokenize(src);
    while let Some(item) = t.next() {
        lazy.push(item);
    }
    assert!(t.next().is_none());
    assert_eq!(lazy.len(), eager.len());
    for (a, b) in lazy.iter().zip(eager.iter()) {
        match (a, b) {
            (Ok(x), Ok(y)) => assert_eq!(x, y),
            (Err(x), Err(y)) => {
                assert_eq!(x.kind, y.kind);
                assert_eq!(x.pos, y.pos);
                assert_eq!(x.line, y.line);
            }
            _ => panic!("lazy and eager differ"),
        }
    }
}

#[test]
fn stopping_early_leaves_the_rest() {
    let mut t = tokenize("a b");
    assert_eq!(t.next().unwrap().unwrap(), statement("a"));
    assert_eq!(
        t.collect().into_iter().map(|i| i.unwrap()).collect::<Vec<_>>(),
        vec![Token::Spacer, statement("b"), Token::Eof]
    );
}

#[test]
fn punctuation_tokens() {
    assert_eq!(
        lex("=~^$_{}."),
        vec![
            Token::EqualitySwitch(EqualityType::Equal),
            Token::EqualitySwitch(EqualityType::Regex),
            Token::EqualitySwitch(EqualityType::BeginsWith),
            Token::EqualitySwitch(EqualityType::EndsWith),
            Token::EqualitySwitch(EqualityType::Nothing),
            Token::Block(BlockType::Open),
            Token::Block(BlockType::Close),
            Token::Dot,
            Token::Eof
        ]
    );
}

#[test]
fn spacer_runs_collapse() {
    assert_eq!(lex("a \t\u{A0} b"), vec![statement("a"), Token::Spacer, statement("b"), Token::Eof]);
}

#[test]
fn statement_after_number_needs_a_gap() {
    assert_eq!(lex("version30"), vec![statement("version30"), Token::Eof]);
    assert_eq!(
        lex("30s"),
        vec![Token::Numeral(30), Token::Suffix("s".to_string()), Token::Eof]
    );
}

#[test]
fn simple_escapes() {
    assert_eq!(lex(r#""\0\n\r\t\"""#), vec![string("\0\n\r\t\"", true), Token::Eof]);
    assert_eq!(lex(r#""\xff""#), vec![string("\u{ff}", true), Token::Eof]);
    assert_eq!(lex(r#""\u{41}""#), vec![string("A", true), Token::Eof]);
}

#[test]
fn unexpected_character_is_reported_in_source_order() {
    let all = items("abc§ d");
    assert_eq!(all[0].as_ref().unwrap(), &statement("abc"));
    let e = all[1].as_ref().unwrap_err();
    assert_eq!(e.kind, ErrorKind::UnexpectedCharacter('§'));
    assert_eq!(e.reason, "Unexpected character `§`");
    assert_eq!(e.pos, 3..4);
    assert_eq!(all[2].as_ref().unwrap(), &Token::Spacer);
    assert_eq!(all[3].as_ref().unwrap(), &statement("d"));
    assert_eq!(all[4].as_ref().unwrap(), &Token::Eof);
}

#[test]
fn error_line_and_byte_position() {
    let e = first_error("a\r\n'ö' §");
    assert_eq!(e.kind, ErrorKind::UnexpectedCharacter('§'));
    assert_eq!(e.line, 1);
    assert_eq!(e.line_raw, "'ö' §");
    assert_eq!(e.pos, 5..6);
    let e = first_error("x\ny\rz %");
    assert_eq!(e.line, 2);
    assert_eq!(e.line_raw, "z %");
    assert_eq!(e.pos, 2..3);
}

#[test]
fn unterminated_strings() {
    let e = first_error("'abc");
    assert_eq!(e.kind, ErrorKind::EarlyEof);
    assert_eq!(e.reason, "Reached EOF in string");
    assert_eq!(e.pos, 4..5);
    let e = first_error("\"abc");
    assert_eq!(e.kind, ErrorKind::EarlyEof);
    let e = first_error("\"abc\\");
    assert_eq!(e.kind, ErrorKind::EarlyEof);
    assert_eq!(e.reason, "Reached EOF mid string escape");
}

#[test]
fn malformed_escapes() {
    let e = first_error(r#""\q""#);
    assert_eq!(e.kind, ErrorKind::UnexpectedCharacter('q'));
    assert_eq!(e.reason, "`\\q` is not a known string escape");
    assert_eq!(e.pos, 2..3);
    let e = first_error(r#""\xg0""#);
    assert_eq!(e.kind, ErrorKind::UnexpectedCharacter('g'));
    let e = first_error(r#""\u41""#);
    assert_eq!(e.kind, ErrorKind::UnexpectedCharacter('4'));
    let e = first_error(r#""\u{4}""#);
    assert_eq!(e.kind, ErrorKind::UnexpectedCharacter('}'));
    let e = first_error(r#""\u{1234567}""#);
    assert_eq!(e.kind, ErrorKind::UnexpectedCharacter('7'));
    let e = first_error("\"a\nb\"");
    assert_eq!(e.kind, ErrorKind::UnexpectedCharacter('\n'));
}

#[test]
fn invalid_character_code() {
    let e = first_error(r#""\u{D800}""#);
    assert_eq!(e.kind, ErrorKind::InvalidCharacterCode(0xD800));
    assert_eq!(e.pos, 4..8);
    assert_eq!(e.reason, "`55296` is not a valid UTF-8 codepoint");
    let e = first_error(r#""\u{110000}""#);
    assert_eq!(e.kind, ErrorKind::InvalidCharacterCode(0x110000));
}

#[test]
fn numeral_limits() {
    assert_eq!(lex("18446744073709551615"), vec![Token::Numeral(u64::MAX), Token::Eof]);
    let all = items("18446744073709551616 x");
    let e = all[0].as_ref().unwrap_err();
    assert_eq!(e.kind, ErrorKind::IntParseError);
    assert_eq!(e.reason, "`18446744073709551616` failed to parse this as number");
    assert_eq!(e.pos, 0..20);
    assert_eq!(all[1].as_ref().unwrap(), &Token::Spacer);
    assert_eq!(all[2].as_ref().unwrap(), &statement("x"));
}

#[test]
fn error_then_tokens_continue() {
    let all = items("\"bad\\q rest\" ok");
    assert!(all[0].is_err());
    assert!(all.iter().skip(1).any(|i| i.is_ok()));
    assert_eq!(all.last().unwrap().as_ref().unwrap(), &Token::Eof);
}

#[test]
fn error_report() {
    let e = first_error("a\nlisten 80x8\n");
    assert_eq!(e.to_text(), "[1:10]: A number suffix can not contain numbers\nlisten 80x8\n----------^");
    let e = first_error("1234567890123456789012");
    assert_eq!(
        e.to_text(),
        "[0:0]: `1234567890123456789012` failed to parse this as number\n1234567890123456789012\n^^^^^^^^^^^^^^^^^^^^^^"
    );
}

#[test]
fn error_bundle_report() {
    let errors: Vec<Error> = items("§ %").into_iter().filter_map(|i| i.err()).collect();
    assert_eq!(errors.len(), 2);
    assert_eq!(
        ErrorBundle(errors).to_text(),
        "\n[0:0]: Unexpected character `§`\n§ %\n^\n[0:3]: Unexpected character `%`\n§ %\n---^\n"
    );
    assert_eq!(ErrorBundle(Vec::new()).to_text(), "\n");
}

#[test]
fn an_error_covers_one_byte_at_least() {
    let source: Vec<char> = "ab\ncö d".chars().collect();
    let e = bolt::lexer::report::error(
        &source,
        ErrorKind::UnexpectedCharacter('d'),
        6,
        0,
        String::from("reason"),
    );
    assert_eq!(e.line, 1);
    assert_eq!(e.line_raw, "cö d");
    assert_eq!(e.pos, 4..5);
    assert_eq!(e.reason, "reason");
    let e = bolt::lexer::report::error(&source, ErrorKind::EarlyEof, 1, 3, String::from("r"));
    assert_eq!(e.line, 0);
    assert_eq!(e.line_raw, "ab");
    assert_eq!(e.pos, 1..4);
}

#[test]
fn line_break_in_a_double_quoted_string() {
    let e = first_error("x \"ab\ncd\"");
    assert_eq!(e.kind, ErrorKind::UnexpectedCharacter('\n'));
    assert_eq!(
        e.reason,
        "Newlines are not allowed in double quote strings, use `\\n` or similar"
    );
    assert_eq!(e.line, 0);
    assert_eq!(e.pos, 5..6);
}

#[test]
fn tokens_before_an_error_are_those_of_the_text_before_it() {
    for (source, start) in [
        ("ab 12u {'x'} §rest", 13),
        ("a.b = \"c\\q\" d", 6),
        ("dir 'open", 4),
        ("7kb9 x", 3),
        ("§", 0),
    ] {
        let all = items(source);
        let first = all.iter().position(|i| i.is_err()).unwrap();
        let head: String = source.chars().take(start).collect();
        let mut expected: Vec<Token> = all.into_iter().take(first).map(|i| i.unwrap()).collect();
        expected.push(Token::Eof);
        assert_eq!(lex(&head), expected, "{source}");
    }
}
