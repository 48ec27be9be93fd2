//! The grammar of the configuration language: from tokens to commands with
//! dotted keys, values, and nested blocks.

use crate::lexer::token::{BlockType, EqualityType, Lexeme, Token};
use vstd::prelude::*;

verus! {

/// One value of a command.
#[derive(Debug, PartialEq, Eq)]
pub enum Value {
    Statement(String),
    String { content: String, format: bool },
    Number { value: u64, suffix: Option<String> },
    Equator(EqualityType),
}

/// The dotted key of a command, part by part.
#[derive(Debug, PartialEq, Eq)]
pub struct Key(pub Vec<String>);

/// The commands between `{` and `}`.
#[derive(Debug, PartialEq, Eq)]
pub struct Block(pub Vec<Item>);

/// A key, its values, and the block that follows them, if one does.
#[derive(Debug, PartialEq, Eq)]
pub struct Command(pub Key, pub Vec<Value>, pub Option<Block>);

/// One entry of a configuration.
#[derive(Debug, PartialEq, Eq)]
pub enum Item {
    Command(Command),
}

/// Where the tokens stop fitting the grammar: the index of the token.
#[derive(Debug, Clone, Copy, PartialEq, Eq, Structural)]
pub struct SyntaxError {
    pub at: usize,
}

/// Mathematical model of a [`Value`].
pub enum Val {
    Statement(Seq<char>),
    Text { content: Seq<char>, format: bool },
    Number { value: u64, suffix: Option<Seq<char>> },
    Equator(EqualityType),
}

/// Mathematical model of an [`Item`]: a command with the commands of its
/// block.
pub struct Entry {
    pub key: Seq<Seq<char>>,
    pub values: Seq<Val>,
    pub block: Option<Seq<Entry>>,
}

/// The outcome of reading something from the tokens: what was read and the
/// index after it, or the index of the token that does not fit.
pub enum Read<T> {
    Done { value: T, next: int },
    Failed { at: int },
}

/// The view of each text.
pub open spec fn texts(v: Seq<String>) -> Seq<Seq<char>> {
    Seq::new(v.len(), |i: int| v[i]@)
}

impl View for Value {
    type V = Val;

    open spec fn view(&self) -> Val {
        match *self {
            Value::Statement(s) => Val::Statement(s@),
            Value::String { content, format } => Val::Text { content: content@, format },
            Value::Number { value, suffix } => Val::Number {
                value,
                suffix: match suffix {
                    Some(s) => Some(s@),
                    None => None,
                },
            },
            Value::Equator(e) => Val::Equator(e),
        }
    }
}

/// The models of values.
pub open spec fn values_of(v: Seq<Value>) -> Seq<Val> {
    Seq::new(v.len(), |i: int| v[i]@)
}

/// The model of an item.
pub open spec fn entry_of(item: Item) -> Entry
    decreases item,
{
    match item {
        Item::Command(Command(key, values, block)) => Entry {
            key: texts(key.0@),
            values: values_of(values@),
            block: match block {
                Some(Block(items)) => Some(
                    Seq::new(
                        items@.len(),
                        |i: int|
                            if 0 <= i < items@.len() {
                                entry_of(items@[i])
                            } else {
                                arbitrary()
                            },
                    ),
                ),
                None => None,
            },
        },
    }
}

/// The models of items.
pub open spec fn entries_of(items: Seq<Item>) -> Seq<Entry> {
    Seq::new(items.len(), |i: int| entry_of(items[i]))
}

/// The models of tokens.
pub open spec fn lexemes(tokens: Seq<Token>) -> Seq<Lexeme> {
    Seq::new(tokens.len(), |i: int| tokens[i]@)
}

/// The index of the first token at or after `pos` that is no spacer, and no
/// line break either where `lines` is set.
pub open spec fn skip(tokens: Seq<Lexeme>, pos: int, lines: bool) -> int
    decreases tokens.len() - pos,
{
    if 0 <= pos < tokens.len() && (tokens[pos] is Spacer || (lines && tokens[pos] is NewLine)) {
        skip(tokens, pos + 1, lines)
    } else {
        pos
    }
}

/// The tokens end at `pos`: there is none, or it is `Eof`.
pub open spec fn at_end(tokens: Seq<Lexeme>, pos: int) -> bool {
    pos < 0 || pos >= tokens.len() || tokens[pos] is Eof
}

/// The parts of a key after its first: each a dot and a statement.
pub open spec fn key_rest(tokens: Seq<Lexeme>, pos: int) -> (Seq<Seq<char>>, int)
    decreases tokens.len() - pos,
{
    if 0 <= pos && pos + 1 < tokens.len() && tokens[pos] is Dot && tokens[pos + 1] is Statement {
        let rest = key_rest(tokens, pos + 2);
        (seq![tokens[pos + 1]->Statement_0] + rest.0, rest.1)
    } else {
        (seq![], pos)
    }
}

/// The value that starts at `pos`, if one does, and the index after it. A
/// numeral takes the suffix that follows it.
pub open spec fn value_at(tokens: Seq<Lexeme>, pos: int) -> Option<(Val, int)> {
    if pos < 0 || pos >= tokens.len() {
        None
    } else {
        match tokens[pos] {
            Lexeme::Statement(s) => Some((Val::Statement(s), pos + 1)),
            Lexeme::Text { content, format } => Some((Val::Text { content, format }, pos + 1)),
            Lexeme::Numeral(value) => {
                if pos + 1 < tokens.len() && tokens[pos + 1] is Suffix {
                    Some(
                        (
                            Val::Number { value, suffix: Some(tokens[pos + 1]->Suffix_0) },
                            pos + 2,
                        ),
                    )
                } else {
                    Some((Val::Number { value, suffix: None }, pos + 1))
                }
            },
            Lexeme::EqualitySwitch(e) => Some((Val::Equator(e), pos + 1)),
            _ => None,
        }
    }
}

/// The values from `pos` on, with any spacers between them, and the index
/// of the first token that is neither.
pub open spec fn values_at(tokens: Seq<Lexeme>, pos: int) -> (Seq<Val>, int)
    decreases tokens.len() - pos,
{
    let from = skip(tokens, pos, false);
    match value_at(tokens, from) {
        Some((value, next)) => {
            if next > pos {
                let rest = values_at(tokens, next);
                (seq![value] + rest.0, rest.1)
            } else {
                (seq![], from)
            }
        },
        None => (seq![], from),
    }
}

/// The command that starts at `pos`: a dotted key, values, and then the
/// end of the line, the end of the tokens, or a block. A block opens with
/// `{` at the end of a line and holds commands up to a `}`.
pub open spec fn entry_at(tokens: Seq<Lexeme>, pos: int) -> Read<Entry>
    decreases tokens.len() - pos, 0nat,
{
    if pos < 0 || pos >= tokens.len() || !(tokens[pos] is Statement) {
        Read::Failed { at: pos }
    } else {
        let rest = key_rest(tokens, pos + 1);
        let key = seq![tokens[pos]->Statement_0] + rest.0;
        let values = values_at(tokens, rest.1);
        let end = values.1;
        if at_end(tokens, end) {
            Read::Done { value: Entry { key, values: values.0, block: None }, next: end }
        } else if tokens[end] is NewLine {
            Read::Done { value: Entry { key, values: values.0, block: None }, next: end + 1 }
        } else if tokens[end] == Lexeme::Block(BlockType::Open) {
            let line = skip(tokens, end + 1, false);
            if line < tokens.len() && tokens[line] is NewLine && line > pos {
                match entries_at(tokens, line + 1, true) {
                    Read::Done { value, next } => Read::Done {
                        value: Entry { key, values: values.0, block: Some(value) },
                        next,
                    },
                    Read::Failed { at } => Read::Failed { at },
                }
            } else {
                Read::Failed { at: line }
            }
        } else {
            Read::Failed { at: end }
        }
    }
}

/// The commands from `pos` on, up to the end of the tokens, or inside a
/// block up to its `}`. Empty lines are skipped. A `}` outside a block and a
/// block without `}` do not fit.
pub open spec fn entries_at(tokens: Seq<Lexeme>, pos: int, inside: bool) -> Read<Seq<Entry>>
    decreases tokens.len() - pos, 1nat,
{
    let from = skip(tokens, pos, true);
    if at_end(tokens, from) {
        if inside {
            Read::Failed { at: from }
        } else {
            Read::Done { value: seq![], next: from }
        }
    } else if tokens[from] == Lexeme::Block(BlockType::Close) {
        if inside {
            Read::Done { value: seq![], next: from + 1 }
        } else {
            Read::Failed { at: from }
        }
    } else if from < pos {
        Read::Failed { at: from }
    } else {
        match entry_at(tokens, from) {
            Read::Failed { at } => Read::Failed { at },
            Read::Done { value, next } => {
                if from < next <= tokens.len() {
                    match entries_at(tokens, next, inside) {
                        Read::Done { value: rest, next: end } => Read::Done {
                            value: seq![value] + rest,
                            next: end,
                        },
                        Read::Failed { at } => Read::Failed { at },
                    }
                } else {
                    Read::Failed { at: from }
                }
            },
        }
    }
}

/// The commands that a whole sequence of tokens denotes.
pub open spec fn parse_entries(tokens: Seq<Lexeme>) -> Read<Seq<Entry>> {
    entries_at(tokens, 0, false)
}

/// Skipping ends inside the tokens and never goes back.
pub proof fn lemma_skip_bounds(tokens: Seq<Lexeme>, pos: int, lines: bool)
    requires
        0 <= pos <= tokens.len(),
    ensures
        pos <= skip(tokens, pos, lines) <= tokens.len(),
    decreases tokens.len() - pos,
{
    if pos < tokens.len() && (tokens[pos] is Spacer || (lines && tokens[pos] is NewLine)) {
        lemma_skip_bounds(tokens, pos + 1, lines);
    }
}

/// A key ends inside the tokens.
pub proof fn lemma_key_rest_bounds(tokens: Seq<Lexeme>, pos: int)
    requires
        0 <= pos <= tokens.len(),
    ensures
        pos <= key_rest(tokens, pos).1 <= tokens.len(),
    decreases tokens.len() - pos,
{
    if pos + 1 < tokens.len() && tokens[pos] is Dot && tokens[pos + 1] is Statement {
        lemma_key_rest_bounds(tokens, pos + 2);
    }
}

/// Values end inside the tokens.
pub proof fn lemma_values_bounds(tokens: Seq<Lexeme>, pos: int)
    requires
        0 <= pos <= tokens.len(),
    ensures
        pos <= values_at(tokens, pos).1 <= tokens.len(),
    decreases tokens.len() - pos,
{
    lemma_skip_bounds(tokens, pos, false);
    let from = skip(tokens, pos, false);
    match value_at(tokens, from) {
        Some((value, next)) => {
            lemma_values_bounds(tokens, next);
        },
        None => {},
    }
}

/// The index of the first token at or after `pos` that is no spacer, and no
/// line break either where `lines` is set.
pub fn skip_tokens(tokens: &Vec<Token>, pos: usize, lines: bool) -> (r: usize)
    requires
        pos <= tokens@.len(),
    ensures
        r == skip(lexemes(tokens@), pos as int, lines),
        pos <= r <= tokens@.len(),
{
    let mut i: usize = pos;
    proof {
        lemma_skip_bounds(lexemes(tokens@), pos as int, lines);
    }
    while i < tokens.len() && is_blank(&tokens[i], lines)
        invariant
            pos <= i <= tokens@.len(),
            skip(lexemes(tokens@), pos as int, lines) == skip(lexemes(tokens@), i as int, lines),
        decreases tokens@.len() - i,
    {
        i = i + 1;
    }
    i
}

fn is_blank(token: &Token, lines: bool) -> (r: bool)
    ensures
        r == (token@ is Spacer || (lines && token@ is NewLine)),
{
    match token {
        Token::Spacer => true,
        Token::NewLine => lines,
        _ => false,
    }
}

fn is_end(tokens: &Vec<Token>, pos: usize) -> (r: bool)
    ensures
        r == at_end(lexemes(tokens@), pos as int),
{
    if pos >= tokens.len() {
        true
    } else {
        matches!(tokens[pos], Token::Eof)
    }
}

/// Reads the parts of a key after its first into `key`.
pub fn read_key(tokens: &Vec<Token>, pos: usize, key: &mut Vec<String>) -> (r: usize)
    requires
        pos <= tokens@.len(),
    ensures
        r == key_rest(lexemes(tokens@), pos as int).1,
        texts(final(key)@) == texts(old(key)@) + key_rest(lexemes(tokens@), pos as int).0,
        pos <= r <= tokens@.len(),
    decreases tokens@.len() - pos,
{
    proof {
        lemma_key_rest_bounds(lexemes(tokens@), pos as int);
    }
    if tokens.len() - pos >= 2 {
        match (&tokens[pos], &tokens[pos + 1]) {
            (Token::Dot, Token::Statement(part)) => {
                let ghost before = key@;
                key.push(part.clone());
                let r = read_key(tokens, pos + 2, key);
                proof {
                    let rest = key_rest(lexemes(tokens@), pos + 2);
                    assert(texts(before.push(*part)) =~= texts(before).push(part@));
                    assert(texts(before).push(part@) + rest.0 =~= texts(before) + (seq![part@]
                        + rest.0));
                }
                return r;
            },
            _ => {},
        }
    }
    assert(texts(key@) + Seq::<Seq<char>>::empty() =~= texts(key@));
    pos
}

/// The model of a read value.
pub open spec fn read_value_model(r: Option<(Value, usize)>) -> Option<(Val, int)> {
    match r {
        Some((value, next)) => Some((value@, next as int)),
        None => None,
    }
}

/// The value that starts at `pos`, if one does, and the index after it.
pub fn read_value(tokens: &Vec<Token>, pos: usize) -> (r: Option<(Value, usize)>)
    requires
        pos <= tokens@.len(),
    ensures
        read_value_model(r) == value_at(lexemes(tokens@), pos as int),
        r matches Some(v) ==> pos < v.1 <= tokens@.len(),
{
    if pos >= tokens.len() {
        return None;
    }
    match &tokens[pos] {
        Token::Statement(s) => Some((Value::Statement(s.clone()), pos + 1)),
        Token::String { content, format } => Some(
            (Value::String { content: content.clone(), format: *format }, pos + 1),
        ),
        Token::Numeral(value) => {
            if tokens.len() - pos >= 2 {
                match &tokens[pos + 1] {
                    Token::Suffix(s) => {
                        return Some(
                            (Value::Number { value: *value, suffix: Some(s.clone()) }, pos + 2),
                        );
                    },
                    _ => {},
                }
            }
            Some((Value::Number { value: *value, suffix: None }, pos + 1))
        },
        Token::EqualitySwitch(e) => Some((Value::Equator(*e), pos + 1)),
        _ => None,
    }
}

/// The values from `pos` on, and the index of the first token that is
/// neither a value nor a spacer.
pub fn read_values(tokens: &Vec<Token>, pos: usize) -> (r: (Vec<Value>, usize))
    requires
        pos <= tokens@.len(),
    ensures
        values_of(r.0@) == values_at(lexemes(tokens@), pos as int).0,
        r.1 == values_at(lexemes(tokens@), pos as int).1,
        pos <= r.1 <= tokens@.len(),
{
    let ghost all = lexemes(tokens@);
    let mut values: Vec<Value> = Vec::new();
    let mut at: usize = pos;
    proof {
        lemma_values_bounds(all, pos as int);
        assert(values_of(values@) + values_at(all, pos as int).0 =~= values_at(all, pos as int).0);
    }
    loop
        invariant
            pos <= at <= tokens@.len(),
            all == lexemes(tokens@),
            values_of(values@) + values_at(all, at as int).0 == values_at(all, pos as int).0,
            values_at(all, at as int).1 == values_at(all, pos as int).1,
        decreases tokens@.len() - at,
    {
        let from = skip_tokens(tokens, at, false);
        match read_value(tokens, from) {
            Some((value, next)) => {
                let ghost before = values@;
                let ghost model = value@;
                values.push(value);
                proof {
                    let rest = values_at(all, next as int);
                    assert(values_of(values@) =~= values_of(before).push(model));
                    assert(values_of(before).push(model) + rest.0 =~= values_of(before) + (
                    seq![model] + rest.0));
                }
                at = next;
            },
            None => {
                proof {
                    assert(values_of(values@) + Seq::<Val>::empty() =~= values_of(values@));
                }
                return (values, from);
            },
        }
    }
}

/// The model of what was read.
pub open spec fn read_entry_model(r: Result<(Item, usize), SyntaxError>) -> Read<Entry> {
    match r {
        Ok((item, next)) => Read::Done { value: entry_of(item), next: next as int },
        Err(e) => Read::Failed { at: e.at as int },
    }
}

/// The model of what was read.
pub open spec fn read_entries_model(r: Result<(Vec<Item>, usize), SyntaxError>) -> Read<
    Seq<Entry>,
> {
    match r {
        Ok((items, next)) => Read::Done { value: entries_of(items@), next: next as int },
        Err(e) => Read::Failed { at: e.at as int },
    }
}

/// A command with its parts has the model with these parts.
pub proof fn lemma_entry_of(key: Vec<String>, values: Vec<Value>, block: Option<Vec<Item>>)
    ensures
        entry_of(
            Item::Command(
                Command(
                    Key(key),
                    values,
                    match block {
                        Some(items) => Some(Block(items)),
                        None => None,
                    },
                ),
            ),
        ) == (Entry {
            key: texts(key@),
            values: values_of(values@),
            block: match block {
                Some(items) => Some(entries_of(items@)),
                None => None,
            },
        }),
{
    match block {
        Some(items) => {
            let item = Item::Command(Command(Key(key), values, Some(Block(items))));
            assert(entry_of(item).block.unwrap() =~= entries_of(items@));
        },
        None => {},
    }
}

/// Reads the command that starts at `pos`, with its block if it has one.
pub fn read_entry(tokens: &Vec<Token>, pos: usize) -> (r: Result<(Item, usize), SyntaxError>)
    requires
        pos <= tokens@.len(),
    ensures
        read_entry_model(r) == entry_at(lexemes(tokens@), pos as int),
        r matches Ok(done) ==> pos < done.1 <= tokens@.len(),
    decreases tokens@.len() - pos, 0nat,
{
    if pos >= tokens.len() {
        return Err(SyntaxError { at: pos });
    }
    let mut key: Vec<String> = Vec::new();
    match &tokens[pos] {
        Token::Statement(first) => {
            key.push(first.clone());
            assert(texts(key@) =~= seq![first@]);
        },
        _ => {
            return Err(SyntaxError { at: pos });
        },
    }
    let after_key = read_key(tokens, pos + 1, &mut key);
    let (values, end) = read_values(tokens, after_key);
    if is_end(tokens, end) {
        proof {
            lemma_entry_of(key, values, None);
        }
        return Ok((Item::Command(Command(Key(key), values, None)), end));
    }
    match &tokens[end] {
        Token::NewLine => {
            proof {
                lemma_entry_of(key, values, None);
            }
            Ok((Item::Command(Command(Key(key), values, None)), end + 1))
        },
        Token::Block(BlockType::Open) => {
            let line = skip_tokens(tokens, end + 1, false);
            if line < tokens.len() && matches!(tokens[line], Token::NewLine) {
                match read_entries(tokens, line + 1, true) {
                    Ok((items, next)) => {
                        proof {
                            lemma_entry_of(key, values, Some(items));
                        }
                        Ok((Item::Command(Command(Key(key), values, Some(Block(items)))), next))
                    },
                    Err(e) => Err(e),
                }
            } else {
                Err(SyntaxError { at: line })
            }
        },
        _ => Err(SyntaxError { at: end }),
    }
}

/// Reads the commands from `pos` on: up to the end of the tokens, or inside
/// a block up to its `}`.
pub fn read_entries(tokens: &Vec<Token>, pos: usize, inside: bool) -> (r: Result<
    (Vec<Item>, usize),
    SyntaxError,
>)
    requires
        pos <= tokens@.len(),
    ensures
        read_entries_model(r) == entries_at(lexemes(tokens@), pos as int, inside),
        r matches Ok(done) ==> pos <= done.1 <= tokens@.len(),
    decreases tokens@.len() - pos, 1nat,
{
    let ghost all = lexemes(tokens@);
    // The tokens are a vector, so an index after one of them fits in `usize`.
    let count: usize = tokens.len();
    let from = skip_tokens(tokens, pos, true);
    assert(from <= count);
    if is_end(tokens, from) {
        if inside {
            return Err(SyntaxError { at: from });
        }
        assert(entries_of(Seq::<Item>::empty()) =~= Seq::<Entry>::empty());
        return Ok((Vec::new(), from));
    }
    assert(from < tokens@.len());
    if matches!(tokens[from], Token::Block(BlockType::Close)) {
        if inside {
            assert(entries_of(Seq::<Item>::empty()) =~= Seq::<Entry>::empty());
            return Ok((Vec::new(), from + 1));
        }
        return Err(SyntaxError { at: from });
    }
    let (item, next) = match read_entry(tokens, from) {
        Ok(done) => done,
        Err(e) => {
            return Err(e);
        },
    };
    let ghost first = entry_of(item);
    match read_entries(tokens, next, inside) {
        Ok((rest, end)) => {
            let ghost tail = rest@;
            let mut items: Vec<Item> = Vec::new();
            items.push(item);
            let mut rest = rest;
            items.append(&mut rest);
            proof {
                assert(items@ =~= seq![item] + tail);
                assert(entries_of(items@) =~= seq![first] + entries_of(tail));
            }
            Ok((items, end))
        },
        Err(e) => Err(e),
    }
}

/// Reads all the commands of `tokens`. `Eof` ends them, and so does the end
/// of the tokens.
pub fn parse(tokens: &Vec<Token>) -> (r: Result<Vec<Item>, SyntaxError>)
    ensures
        match parse_entries(lexemes(tokens@)) {
            Read::Done { value, .. } => r matches Ok(items) && entries_of(items@) == value,
            Read::Failed { at } => r matches Err(e) && e.at == at,
        },
{
    match read_entries(tokens, 0, false) {
        Ok((items, _)) => Ok(items),
        Err(e) => Err(e),
    }
}

/// A lazy reader of the top-level commands of a token sequence.
pub struct GrammarIter {
    inner: Vec<Token>,
    pos: usize,
    stopped: bool,
}

/// What a reader that stands at `pos` hands out next: nothing at the end of
/// the tokens, else the next command, or where it does not fit.
pub open spec fn upcoming(tokens: Seq<Lexeme>, pos: int) -> Option<Read<Entry>> {
    let from = skip(tokens, pos, true);
    if at_end(tokens, from) {
        None
    } else if tokens[from] == Lexeme::Block(BlockType::Close) {
        Some(Read::Failed { at: from })
    } else {
        Some(entry_at(tokens, from))
    }
}

/// A reader of the commands of `tokens`.
pub fn process_semantics(tokens: Vec<Token>) -> (r: GrammarIter)
    ensures
        r.tokens() == lexemes(tokens@),
        r.position() == 0,
        !r.is_stopped(),
{
    GrammarIter { inner: tokens, pos: 0, stopped: false }
}

impl GrammarIter {
    /// The tokens that are read.
    pub closed spec fn tokens(&self) -> Seq<Lexeme> {
        lexemes(self.inner@)
    }

    /// The index of the token at which the reader stands.
    pub closed spec fn position(&self) -> int {
        self.pos as int
    }

    /// The reader met tokens that do not fit and hands out nothing more.
    pub closed spec fn is_stopped(&self) -> bool {
        self.stopped
    }

    #[verifier::type_invariant]
    spec fn inv(&self) -> bool {
        self.pos <= self.inner@.len()
    }

    /// The next top-level command, or the place where the tokens do not fit
    /// the grammar; after that, and at the end of the tokens, `None`.
    pub fn next(&mut self) -> (r: Option<Result<Item, SyntaxError>>)
        ensures
            final(self).tokens() == old(self).tokens(),
            old(self).is_stopped() ==> r is None && final(self).is_stopped(),
            !old(self).is_stopped() ==> match upcoming(old(self).tokens(), old(self).position()) {
                None => r is None && !final(self).is_stopped(),
                Some(Read::Done { value, next }) => r matches Some(Ok(item)) && entry_of(item)
                    == value && final(self).position() == next && !final(self).is_stopped(),
                Some(Read::Failed { at }) => r matches Some(Err(e)) && e.at == at
                    && final(self).is_stopped(),
            },
    {
        proof {
            use_type_invariant(&*self);
        }
        if self.stopped {
            return None;
        }
        let from = skip_tokens(&self.inner, self.pos, true);
        if is_end(&self.inner, from) {
            return None;
        }
        if matches!(self.inner[from], Token::Block(BlockType::Close)) {
            self.stopped = true;
            return Some(Err(SyntaxError { at: from }));
        }
        match read_entry(&self.inner, from) {
            Ok((item, next)) => {
                self.pos = next;
                Some(Ok(item))
            },
            Err(e) => {
                self.stopped = true;
                Some(Err(e))
            },
        }
    }
}

} // verus!
