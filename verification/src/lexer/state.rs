//! The in-flight state of the lexer: the token that is being read, which is
//! handed out when the next one begins.

use super::grammar::{
    digit_val, digits_value, lex_from, numeral_item, run_end, utf8_len, Class, Prev,
};
use super::report::error;
use super::token::{BlockType, EqualityType, Error, ErrorKind, Item, Lexeme, Token};
use crate::text::substring;
use vstd::prelude::*;
use vstd::string::StringExecFns;

verus! {

/// Which quotes a string literal was written in.
#[derive(Debug, Clone, Copy, PartialEq, Eq, Structural)]
pub enum StringType {
    SingleQuote,
    DoubleQuote,
}

/// The token in flight. `Statement`, `Suffix` and `Numeral` grow with every
/// character of their class; the others are complete when they are opened.
pub enum State {
    Idle,
    Statement { start: usize, end: usize },
    Suffix { start: usize, end: usize },
    Numeral { start: usize, end: usize },
    String { start: usize, end: usize, content: String, kind: StringType },
    Dot,
    EqualitySwitch(EqualityType),
    Block(BlockType),
    Spacer,
    NewLine,
}

/// No item, or one.
pub open spec fn opt_seq(o: Option<Item>) -> Seq<Item> {
    match o {
        Some(i) => seq![i],
        None => seq![],
    }
}

/// Model of what `submit` and `tokenize` hand back.
pub open spec fn submitted(r: Result<Option<Token>, Error>) -> Option<Item> {
    match r {
        Ok(Some(t)) => Some(Ok(t@)),
        Ok(None) => None,
        Err(e) => Some(Err(e@)),
    }
}

impl State {
    /// The state's text starts inside `src[..pos]`.
    pub open spec fn within(&self, src: Seq<char>, pos: int) -> bool {
        match *self {
            State::Statement { start, .. } => start <= pos,
            State::Suffix { start, .. } => start <= pos,
            State::Numeral { start, .. } => start <= pos,
            _ => true,
        }
    }

    /// The class of characters that extend the state, if any does.
    pub open spec fn class(&self) -> Option<Class> {
        match *self {
            State::Statement { .. } => Some(Class::Alnum),
            State::Suffix { .. } => Some(Class::Letter),
            State::Numeral { .. } => Some(Class::Digit),
            State::Spacer => Some(Class::Space),
            _ => None,
        }
    }

    /// What the lexeme after this one learns of it.
    pub open spec fn prev(&self) -> Prev {
        match *self {
            State::Numeral { .. } => Prev::Numeral,
            State::Suffix { .. } => Prev::Suffix,
            _ => Prev::Other,
        }
    }

    /// The item that the state becomes when its text ends at `end`.
    pub open spec fn item_at(&self, src: Seq<char>, end: int) -> Option<Item> {
        match *self {
            State::Idle => None,
            State::Statement { start, .. } => Some(
                Ok(Lexeme::Statement(src.subrange(start as int, end))),
            ),
            State::Suffix { start, .. } => Some(Ok(Lexeme::Suffix(src.subrange(start as int, end)))),
            State::Numeral { start, .. } => Some(numeral_item(src, start as int, end)),
            State::String { content, kind, .. } => Some(
                Ok(Lexeme::Text { content: content@, format: kind is DoubleQuote }),
            ),
            State::Dot => Some(Ok(Lexeme::Dot)),
            State::EqualitySwitch(e) => Some(Ok(Lexeme::EqualitySwitch(e))),
            State::Block(b) => Some(Ok(Lexeme::Block(b))),
            State::Spacer => Some(Ok(Lexeme::Spacer)),
            State::NewLine => Some(Ok(Lexeme::NewLine)),
        }
    }

    /// The end that `complete` recorded in the state.
    pub open spec fn end_mark(&self) -> int {
        match *self {
            State::Statement { end, .. } => end as int,
            State::Suffix { end, .. } => end as int,
            State::Numeral { end, .. } => end as int,
            _ => 0,
        }
    }

    /// Where the state's text stops when the cursor stands at `pos`.
    pub open spec fn stop(&self, src: Seq<char>, pos: int) -> int {
        match self.class() {
            Some(cl) => run_end(src, pos, cl),
            None => pos,
        }
    }

    /// Everything that is still to come out of the lexer when this state is
    /// in flight and the cursor stands at `pos`.
    pub open spec fn stream(&self, src: Seq<char>, pos: int) -> Seq<Item> {
        let stop = self.stop(src, pos);
        opt_seq(self.item_at(src, stop)) + lex_from(src, stop, self.prev())
    }

    /// Tells whether a spacer is in flight.
    pub fn is_spacer(&self) -> (r: bool)
        ensures
            r == (*self is Spacer),
    {
        matches!(self, State::Spacer)
    }

    /// Tells whether a statement is in flight.
    pub fn is_statement(&self) -> (r: bool)
        ensures
            r == (*self is Statement),
    {
        matches!(self, State::Statement { .. })
    }

    /// Tells whether a suffix is in flight.
    pub fn is_suffix(&self) -> (r: bool)
        ensures
            r == (*self is Suffix),
    {
        matches!(self, State::Suffix { .. })
    }

    /// Tells whether a numeral is in flight.
    pub fn is_numeral(&self) -> (r: bool)
        ensures
            r == (*self is Numeral),
    {
        matches!(self, State::Numeral { .. })
    }

    /// The state with `pos` recorded as the end of its text.
    pub open spec fn completed(self, pos: usize) -> State {
        match self {
            State::Statement { start, .. } => State::Statement { start, end: pos },
            State::Suffix { start, .. } => State::Suffix { start, end: pos },
            State::Numeral { start, .. } => State::Numeral { start, end: pos },
            _ => self,
        }
    }

    /// Records `pos` as the end of a growing token.
    pub fn complete(&mut self, pos: usize)
        ensures
            *final(self) == old(self).completed(pos),
    {
        match self {
            State::Statement { end, .. } => *end = pos,
            State::Numeral { end, .. } => *end = pos,
            State::Suffix { end, .. } => *end = pos,
            _ => (),
        }
    }

    /// Puts `new` in the place of the state and returns what was there.
    pub fn swap(&mut self, new: State) -> (previous: State)
        ensures
            *final(self) == new,
            previous == *old(self),
    {
        let mut new = new;
        std::mem::swap(self, &mut new);
        new
    }

    /// Puts `new` in flight and turns the state that was there into its
    /// token. A numeral that does not fit in 64 bits gives an error.
    pub fn tokenize(&mut self, new: State, src: &Vec<char>) -> (r: Result<Option<Token>, Error>)
        requires
            old(self).within(src@, old(self).end_mark()),
            old(self).end_mark() <= src.len(),
            utf8_len(src@) <= usize::MAX,
        ensures
            *final(self) == new,
            submitted(r) == old(self).item_at(src@, old(self).end_mark()),
    {
        let previous = self.swap(new);
        match previous {
            State::Idle => Ok(None),
            State::Statement { start, end } => Ok(Some(Token::Statement(substring(src, start, end)))),
            State::Suffix { start, end } => Ok(Some(Token::Suffix(substring(src, start, end)))),
            State::Numeral { start, end } => {
                match parse_numeral(src, start, end) {
                    Some(n) => Ok(Some(Token::Numeral(n))),
                    None => {
                        let mut message = String::from_str("`");
                        let digits = substring(src, start, end);
                        message.append(digits.as_str());
                        message.append("` failed to parse this as number");
                        Err(error(src, ErrorKind::IntParseError, start, end - start, message))
                    },
                }
            },
            State::String { start: _, end: _, content, kind } => Ok(
                Some(Token::String { content, format: matches!(kind, StringType::DoubleQuote) }),
            ),
            State::Dot => Ok(Some(Token::Dot)),
            State::EqualitySwitch(switch) => Ok(Some(Token::EqualitySwitch(switch))),
            State::Block(kind) => Ok(Some(Token::Block(kind))),
            State::Spacer => Ok(Some(Token::Spacer)),
            State::NewLine => Ok(Some(Token::NewLine)),
        }
    }
}

/// Adding digits never lowers the value.
pub proof fn lemma_digits_prefix(s: Seq<char>, k: int, base: nat)
    requires
        0 <= k <= s.len(),
        base >= 1,
    ensures
        digits_value(s.subrange(0, k), base) <= digits_value(s, base),
    decreases s.len() - k,
{
    if k == s.len() {
        assert(s.subrange(0, k) =~= s);
    } else {
        lemma_digits_prefix(s.drop_last(), k, base);
        assert(s.drop_last().subrange(0, k) =~= s.subrange(0, k));
        assert(digits_value(s.drop_last(), base) * base >= digits_value(s.drop_last(), base))
            by (nonlinear_arith)
            requires
                base >= 1,
        ;
    }
}

/// The value of a decimal or hexadecimal digit, and zero for anything else.
pub fn digit_of(c: char) -> (d: u32)
    ensures
        d == digit_val(c),
        d < 16,
{
    if '0' <= c && c <= '9' {
        c as u32 - '0' as u32
    } else if 'a' <= c && c <= 'f' {
        c as u32 - 'a' as u32 + 10
    } else if 'A' <= c && c <= 'F' {
        c as u32 - 'A' as u32 + 10
    } else {
        0
    }
}

/// The decimal value of the digits `src[start..end]`, if it fits in 64 bits.
pub fn parse_numeral(src: &Vec<char>, start: usize, end: usize) -> (r: Option<u64>)
    requires
        start <= end <= src.len(),
    ensures
        r matches Some(n) ==> n == digits_value(src@.subrange(start as int, end as int), 10),
        r is None ==> digits_value(src@.subrange(start as int, end as int), 10) > u64::MAX,
{
    let ghost whole = src@.subrange(start as int, end as int);
    let mut value: u64 = 0;
    let mut i: usize = start;
    while i < end
        invariant
            start <= i <= end <= src.len(),
            whole == src@.subrange(start as int, end as int),
            value == digits_value(whole.subrange(0, i - start), 10),
        decreases end - i,
    {
        let c: char = src[i];
        let d: u64 = digit_of(c) as u64;
        proof {
            let next = whole.subrange(0, i - start + 1);
            assert(next.drop_last() =~= whole.subrange(0, i - start));
            assert(next.last() == c);
            lemma_digits_prefix(whole, i - start + 1, 10);
        }
        if value > (u64::MAX - d) / 10 {
            return None;
        }
        value = value * 10 + d;
        i = i + 1;
    }
    assert(whole.subrange(0, end - start) =~= whole);
    Some(value)
}

} // verus!
