//! Token and error vocabulary of the configuration lexer, with the
//! mathematical models that the contracts speak of.

use std::ops::Range;
use crate::text::{decimal, push_char, push_decimal, push_repeated, repeated};
use vstd::prelude::*;
use vstd::string::StringExecFns;

verus! {

/// How a value is compared: the meaning of `=`, `~`, `^`, `$` and `_`.
#[derive(Debug, Clone, Copy, PartialEq, Eq, Structural)]
pub enum EqualityType {
    Nothing,
    Equal,
    Regex,
    BeginsWith,
    EndsWith,
}

/// `{` or `}`.
#[derive(Debug, Clone, Copy, PartialEq, Eq, Structural)]
pub enum BlockType {
    Open,
    Close,
}

/// One lexical unit of the configuration language.
#[derive(Debug, PartialEq, Eq)]
pub enum Token {
    Statement(String),
    Suffix(String),
    Numeral(u64),
    String { content: String, format: bool },
    Dot,
    EqualitySwitch(EqualityType),
    Block(BlockType),
    Spacer,
    NewLine,
    Eof,
}

/// What went wrong at a place in the source.
#[derive(Debug, Clone, Copy, PartialEq, Eq, Structural)]
pub enum ErrorKind {
    UnexpectedCharacter(char),
    EarlyEof,
    IntParseError,
    InvalidCharacterCode(u64),
}

/// A lexical error with the line it occurred on.
///
/// `line` counts line breaks before the offending character, `line_raw` is the
/// text of that line without its line break, and `pos` is the byte range of
/// the offending text within the line.
#[derive(Debug)]
pub struct Error {
    pub kind: ErrorKind,
    pub reason: String,
    pub line_raw: String,
    pub line: usize,
    pub pos: Range<usize>,
}

/// Mathematical model of a [`Token`].
pub enum Lexeme {
    Statement(Seq<char>),
    Suffix(Seq<char>),
    Numeral(u64),
    Text { content: Seq<char>, format: bool },
    Dot,
    EqualitySwitch(EqualityType),
    Block(BlockType),
    Spacer,
    NewLine,
    Eof,
}

/// Mathematical model of an [`Error`].
pub struct Fault {
    pub kind: ErrorKind,
    pub reason: Seq<char>,
    pub line_raw: Seq<char>,
    pub line: int,
    pub start: int,
    pub end: int,
}

/// One element of the lexer's output.
pub type Item = Result<Lexeme, Fault>;

impl View for Token {
    type V = Lexeme;

    open spec fn view(&self) -> Lexeme {
        match *self {
            Token::Statement(s) => Lexeme::Statement(s@),
            Token::Suffix(s) => Lexeme::Suffix(s@),
            Token::Numeral(n) => Lexeme::Numeral(n),
            Token::String { content, format } => Lexeme::Text { content: content@, format },
            Token::Dot => Lexeme::Dot,
            Token::EqualitySwitch(e) => Lexeme::EqualitySwitch(e),
            Token::Block(b) => Lexeme::Block(b),
            Token::Spacer => Lexeme::Spacer,
            Token::NewLine => Lexeme::NewLine,
            Token::Eof => Lexeme::Eof,
        }
    }
}

impl View for Error {
    type V = Fault;

    open spec fn view(&self) -> Fault {
        Fault {
            kind: self.kind,
            reason: self.reason@,
            line_raw: self.line_raw@,
            line: self.line as int,
            start: self.pos.start as int,
            end: self.pos.end as int,
        }
    }
}

/// Model of one output element.
pub open spec fn item_view(r: Result<Token, Error>) -> Item {
    match r {
        Ok(t) => Ok(t@),
        Err(e) => Err(e@),
    }
}

impl EqualityType {
    /// The comparison that an indicator character stands for.
    pub open spec fn of_char(c: char) -> EqualityType {
        if c == '=' {
            EqualityType::Equal
        } else if c == '~' {
            EqualityType::Regex
        } else if c == '^' {
            EqualityType::BeginsWith
        } else if c == '$' {
            EqualityType::EndsWith
        } else {
            EqualityType::Nothing
        }
    }

    /// True for the five indicator characters.
    pub open spec fn is_indicator(c: char) -> bool {
        c == '=' || c == '~' || c == '^' || c == '$' || c == '_'
    }

    /// Reads an indicator character.
    pub fn from(c: char) -> (r: EqualityType)
        requires
            Self::is_indicator(c),
        ensures
            r == Self::of_char(c),
    {
        if c == '=' {
            EqualityType::Equal
        } else if c == '~' {
            EqualityType::Regex
        } else if c == '^' {
            EqualityType::BeginsWith
        } else if c == '$' {
            EqualityType::EndsWith
        } else {
            EqualityType::Nothing
        }
    }
}

/// The report of an error: its place and reason, the line, and a marker
/// under the offending text.
pub open spec fn report_of(f: Fault) -> Seq<char> {
    "["@ + decimal(f.line as nat) + ":"@ + decimal(f.start as nat) + "]: "@ + f.reason + seq![
        '\n',
    ] + f.line_raw + seq!['\n'] + repeated('-', f.start as nat) + repeated(
        '^',
        if f.end > f.start {
            (f.end - f.start) as nat
        } else {
            0
        },
    )
}

impl Error {
    /// The report of the error, for the operator.
    pub fn to_text(&self) -> (r: String)
        ensures
            r@ == report_of(self@),
    {
        let mut r = String::from_str("[");
        push_decimal(&mut r, self.line as u64);
        r.append(":");
        push_decimal(&mut r, self.pos.start as u64);
        r.append("]: ");
        r.append(self.reason.as_str());
        push_char(&mut r, '\n');
        r.append(self.line_raw.as_str());
        push_char(&mut r, '\n');
        push_repeated(&mut r, '-', self.pos.start);
        let width: usize = if self.pos.end > self.pos.start {
            self.pos.end - self.pos.start
        } else {
            0
        };
        push_repeated(&mut r, '^', width);
        assert(r@ =~= report_of(self@));
        r
    }
}

/// All the errors of one source text.
#[derive(Debug)]
pub struct ErrorBundle(pub Vec<Error>);

/// The reports of errors, each on lines of its own.
pub open spec fn reports_of(errors: Seq<Error>) -> Seq<char>
    decreases errors.len(),
{
    if errors.len() == 0 {
        seq!['\n']
    } else {
        reports_of(errors.drop_last()) + report_of(errors.last()@) + seq!['\n']
    }
}

impl ErrorBundle {
    /// The reports of all the errors.
    pub fn to_text(&self) -> (r: String)
        ensures
            r@ == reports_of(self.0@),
    {
        let mut r = String::from_str("\n");
        let mut i: usize = 0;
        proof {
            reveal_strlit("\n");
            assert(r@ =~= seq!['\n']);
            assert(self.0@.subrange(0, 0) =~= Seq::<Error>::empty());
        }
        while i < self.0.len()
            invariant
                i <= self.0@.len(),
                r@ == reports_of(self.0@.subrange(0, i as int)),
            decreases self.0@.len() - i,
        {
            let text = self.0[i].to_text();
            r.append(text.as_str());
            push_char(&mut r, '\n');
            proof {
                let upto = self.0@.subrange(0, i + 1);
                assert(upto.drop_last() =~= self.0@.subrange(0, i as int));
                assert(upto.last() == self.0@[i as int]);
            }
            i = i + 1;
        }
        assert(self.0@.subrange(0, self.0@.len() as int) =~= self.0@);
        r
    }
}

} // verus!
