use bolt::lexer::{tokenize, EqualityType, Token};
use bolt::syntax::{
    parse, process_semantics, read_values, skip_tokens, Block, Command, Item, Key, SyntaxError,
    Value,
};

fn tokens(src: &str) -> Vec<Token> {
    tokenize(src).collect().into_iter().map(|t| t.unwrap()).collect()
}

fn key(parts: &[&str]) -> Key {
    Key(parts.iter().map(|p| p.to_string()).collect())
}

fn command(parts: &[&str], values: Vec<Value>, block: Option<Vec<Item>>) -> Item {
    Item::Command(Command(key(parts), values, block.map(Block)))
}

fn statement(s: &str) -> Value {
    Value::Statement(s.to_string())
}

#[test]
fn commands_with_values() {
    let items = parse(&tokens("listen 8080 tls\nname 'bolt' \"v\\t1\"\n")).unwrap();
    assert_eq!(
        items,
        vec![
            command(
                &["listen"],
                vec![Value::Number { value: 8080, suffix: None }, statement("tls")],
                None
            ),
            command(
                &["name"],
                vec![
                    Value::String { content: "bolt".to_string(), format: false },
                    Value::String { content: "v\t1".to_string(), format: true }
                ],
                None
            ),
        ]
    );
}

#[test]
fn dotted_keys_and_suffixes() {
    let items = parse(&tokens("tls.session.timeout 30s 5 min")).unwrap();
    assert_eq!(
        items,
        vec![command(
            &["tls", "session", "timeout"],
            vec![
                Value::Number { value: 30, suffix: Some("s".to_string()) },
                Value::Number { value: 5, suffix: None },
                statement("min"),
            ],
            None
        )]
    );
}

#[test]
fn match_type_prefixes() {
    let items = parse(&tokens("route ~\"^/u/[0-9]+$\" ^'/static' = _\n")).unwrap();
    assert_eq!(
        items,
        vec![command(
            &["route"],
            vec![
                Value::Equator(EqualityType::Regex),
                Value::String { content: "^/u/[0-9]+$".to_string(), format: true },
                Value::Equator(EqualityType::BeginsWith),
                Value::String { content: "/static".to_string(), format: false },
                Value::Equator(EqualityType::Equal),
                Value::Equator(EqualityType::Nothing),
            ],
            None
        )]
    );
}

#[test]
fn nested_blocks() {
    let src = "site example {\n  route '/a' {\n    serve files\n  }\n\n  default\n}\nlast\n";
    let items = parse(&tokens(src)).unwrap();
    assert_eq!(
        items,
        vec![
            command(
                &["site"],
                vec![statement("example")],
                Some(vec![
                    command(
                        &["route"],
                        vec![Value::String { content: "/a".to_string(), format: false }],
                        Some(vec![command(&["serve"], vec![statement("files")], None)])
                    ),
                    command(&["default"], vec![], None),
                ])
            ),
            command(&["last"], vec![], None),
        ]
    );
}

#[test]
fn empty_block_and_empty_input() {
    assert_eq!(parse(&tokens("")).unwrap(), vec![]);
    assert_eq!(parse(&tokens("\n \n\t\n")).unwrap(), vec![]);
    assert_eq!(parse(&tokens("a {\n}")).unwrap(), vec![command(&["a"], vec![], Some(vec![]))]);
    assert_eq!(parse(&Vec::new()).unwrap(), vec![]);
}

#[test]
fn what_does_not_fit() {
    assert_eq!(parse(&tokens("}")), Err(SyntaxError { at: 0 }));
    assert_eq!(parse(&tokens("a {\n b\n")), Err(SyntaxError { at: 7 }));
    assert_eq!(parse(&tokens("a { b\n}")), Err(SyntaxError { at: 4 }));
    assert_eq!(parse(&tokens("a b }\n")), Err(SyntaxError { at: 4 }));
    assert_eq!(parse(&tokens("12 a\n")), Err(SyntaxError { at: 0 }));
    assert_eq!(parse(&tokens("a.\n")), Err(SyntaxError { at: 1 }));
    assert_eq!(parse(&tokens("a . b\n")), Err(SyntaxError { at: 2 }));
    assert_eq!(parse(&tokens("a {\n}\n}")), Err(SyntaxError { at: 6 }));
}

#[test]
fn commands_one_at_a_time() {
    let mut reader = process_semantics(tokens(" a 1\n\nb {\n c\n}\n}\nd\n"));
    assert_eq!(
        reader.next(),
        Some(Ok(command(&["a"], vec![Value::Number { value: 1, suffix: None }], None)))
    );
    assert_eq!(
        reader.next(),
        Some(Ok(command(&["b"], vec![], Some(vec![command(&["c"], vec![], None)]))))
    );
    assert_eq!(reader.next(), Some(Err(SyntaxError { at: 15 })));
    assert_eq!(reader.next(), None);
    assert_eq!(reader.next(), None);
    let mut empty = process_semantics(tokens("\n"));
    assert_eq!(empty.next(), None);
}

#[test]
fn skipping_and_values() {
    let t = tokens("  \n a b");
    assert_eq!(skip_tokens(&t, 0, false), 1);
    assert_eq!(skip_tokens(&t, 0, true), 3);
    assert_eq!(skip_tokens(&t, 3, true), 3);
    let (values, end) = read_values(&t, 3);
    assert_eq!(values, vec![statement("a"), statement("b")]);
    assert_eq!(end, 6);
}
