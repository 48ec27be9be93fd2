//! The tokenizer: a lazy reader of tokens that carries the state machine one
//! character at a time and hands out one item per call.

use super::cursor::{
    is_digit_char, is_letter_char, is_space_char, scanned_text, Failure, Util,
};
use super::grammar::{
    in_class, is_digit, is_letter, is_space, lemma_scan_double_bounds,
    lemma_scan_single_bounds, lex, lex_from, locate, mark_at, msg_suffix_digit, msg_unexpected,
    scan_double, scan_single, text_item, Prev,
};
use super::report::error;
use super::state::{opt_seq, State, StringType};
use super::token::{
    item_view, BlockType, EqualityType, Error, ErrorKind, Fault, Item, Lexeme, Token,
};
use crate::text::{push_char, to_chars};
use std::collections::VecDeque;
use vstd::prelude::*;
use vstd::string::StringExecFns;

verus! {

/// Where the tokenizer is in its life: reading, about to hand out `Eof`, or
/// finished.
#[derive(Debug, Clone, Copy, PartialEq, Eq, Structural)]
pub enum PreState {
    Parsing,
    Eof,
    Done,
}

/// A lazy stream of the tokens and errors of one source text.
pub struct Tokenizer {
    util: Util,
    state: PreState,
    backlog: VecDeque<Result<Token, Error>>,
}

/// The models of a sequence of output elements.
pub open spec fn items_of(q: Seq<Result<Token, Error>>) -> Seq<Item> {
    Seq::new(q.len(), |i: int| item_view(q[i]))
}

/// The model of what one call handed out, as a sequence of no or one item.
pub open spec fn handed(r: Option<Result<Token, Error>>) -> Seq<Item> {
    match r {
        Some(x) => seq![item_view(x)],
        None => seq![],
    }
}

/// One character was carried over: the tokenizer `after` is still reading
/// the same source further on, and what was to come `before` is what was
/// handed out followed by what is to come.
pub closed spec fn stepped(
    before: &Tokenizer,
    after: &Tokenizer,
    r: Option<Result<Token, Error>>,
) -> bool {
    &&& after.wf()
    &&& after.state is Parsing
    &&& after.util.src == before.util.src
    &&& after.util.cnext > before.util.current
    &&& after.backlog@.len() <= 1
    &&& (r is None ==> after.backlog@.len() == 0)
    &&& before.util.state.stream(before.util.src@, before.util.current as int) == handed(r)
        + after.remaining()
}

/// After an error was reported for the character at `p`, what was to come
/// is the item of the state, the error, and the items from `p + 1` on.
proof fn lemma_reported(
    after: &Tokenizer,
    before: State,
    src: Seq<char>,
    p: int,
    r: Option<Result<Token, Error>>,
    e: Fault,
)
    requires
        after.state is Parsing,
        after.util.state is Idle,
        after.util.src@ == src,
        after.util.cnext == p + 1,
        0 <= p < src.len(),
        handed(r) + items_of(after.backlog@) == opt_seq(before.item_at(src, p)) + seq![
            Err::<Lexeme, Fault>(e),
        ],
        lex_from(src, p, before.prev()) == seq![Err::<Lexeme, Fault>(e)] + lex_from(
            src,
            p + 1,
            Prev::Other,
        ),
    ensures
        opt_seq(before.item_at(src, p)) + lex_from(src, p, before.prev()) == handed(r)
            + after.remaining(),
{
    let rest = lex_from(src, p + 1, Prev::Other);
    assert(after.util.state.stream(src, p + 1) =~= rest);
    assert(after.remaining() =~= items_of(after.backlog@) + rest);
    assert(handed(r) + after.remaining() =~= (handed(r) + items_of(after.backlog@)) + rest);
    assert((opt_seq(before.item_at(src, p)) + seq![Err::<Lexeme, Fault>(e)]) + rest =~= opt_seq(
        before.item_at(src, p),
    ) + (seq![Err::<Lexeme, Fault>(e)] + rest));
}

/// A state whose text cannot take the character at `p` ends there: what is
/// still to come is its item and then the items from `p` on.
pub proof fn lemma_close(state: State, src: Seq<char>, p: int)
    requires
        0 <= p <= src.len(),
        p < src.len() ==> (state.class() matches Some(cl) ==> !in_class(cl, src[p])),
    ensures
        state.stream(src, p) == opt_seq(state.item_at(src, p)) + lex_from(src, p, state.prev()),
{
}

/// A state whose text takes the character at `p` is unchanged by reading it.
pub proof fn lemma_extend(state: State, src: Seq<char>, p: int)
    requires
        0 <= p < src.len(),
        state.class() matches Some(cl) && in_class(cl, src[p]),
    ensures
        state.stream(src, p) == state.stream(src, p + 1),
{
}

impl Tokenizer {
    /// The source text.
    pub closed spec fn source(&self) -> Seq<char> {
        self.util.src@
    }

    /// The cursor and the state in flight fit the source.
    pub closed spec fn wf(&self) -> bool {
        self.util.wf()
    }

    /// The items that are still to come, in order.
    pub closed spec fn remaining(&self) -> Seq<Item> {
        items_of(self.backlog@) + match self.state {
            PreState::Parsing => self.util.state.stream(self.util.src@, self.util.cnext as int),
            PreState::Eof => seq![Ok(Lexeme::Eof)],
            PreState::Done => seq![],
        }
    }

    /// Reading, with nothing held back.
    spec fn stepping(&self) -> bool {
        &&& self.util.wf()
        &&& self.state is Parsing
        &&& self.backlog@.len() == 0
    }

    /// Reading, with `c` the character that was just read.
    spec fn ready(&self, c: char) -> bool {
        &&& self.stepping()
        &&& self.util.current < self.util.src.len()
        &&& self.util.cnext == self.util.current + 1
        &&& c == self.util.src@[self.util.current as int]
    }

    /// Puts `next` in flight and hands out what was.
    fn emit(&mut self, next: State) -> (r: Option<Result<Token, Error>>)
        requires
            old(self).util.wf(),
            next.within(old(self).util.src@, old(self).util.current as int),
        ensures
            final(self).util.wf(),
            final(self).state == old(self).state,
            final(self).backlog == old(self).backlog,
            final(self).util.state == next,
            final(self).util.src == old(self).util.src,
            final(self).util.current == old(self).util.current,
            final(self).util.cnext == old(self).util.cnext,
            handed(r) == opt_seq(
                old(self).util.state.item_at(old(self).util.src@, old(self).util.current as int),
            ),
    {
        match self.util.submit(next) {
            Ok(Some(token)) => Some(Ok(token)),
            Ok(None) => None,
            Err(e) => Some(Err(e)),
        }
    }

    /// Hands out `first` if there is one and holds the error back, or hands
    /// out the error.
    fn report(&mut self, first: Option<Result<Token, Error>>, f: Failure) -> (r: Option<
        Result<Token, Error>,
    >)
        requires
            old(self).stepping(),
            f.at <= old(self).util.src.len(),
        ensures
            final(self).util == old(self).util,
            final(self).state == old(self).state,
            final(self).backlog@.len() <= 1,
            r is Some,
            handed(r) + items_of(final(self).backlog@) == handed(first) + seq![
                Err(
                    locate(
                        old(self).util.src@,
                        f.kind,
                        f.reason@,
                        f.at as int,
                        f.width as int,
                    ),
                ),
            ],
    {
        let err = error(&self.util.src, f.kind, f.at, f.width, f.reason);
        match first {
            Some(item) => {
                self.backlog.push_back(Err(err));
                assert(items_of(self.backlog@) =~= seq![item_view(Err(err))]);
                assert(handed(Some(item)) + items_of(self.backlog@) =~= handed(first) + seq![
                    item_view(Err(err)),
                ]);
                Some(item)
            },
            None => {
                assert(items_of(self.backlog@) =~= Seq::<Item>::empty());
                assert(handed(Some(Err(err))) + items_of(self.backlog@) =~= handed(first) + seq![
                    item_view(Err(err)),
                ]);
                Some(Err(err))
            },
        }
    }

    /// Ends the state in flight and reports the character read last as
    /// unexpected.
    fn unexpected(&mut self, c: char, reason: String) -> (r: Option<Result<Token, Error>>)
        requires
            old(self).stepping(),
            old(self).util.current < old(self).util.src.len(),
            c == old(self).util.src@[old(self).util.current as int],
        ensures
            final(self).backlog@.len() <= 1,
            r is Some,
            final(self).util.wf(),
            final(self).state is Parsing,
            final(self).util.state is Idle,
            final(self).util.src == old(self).util.src,
            final(self).util.current == old(self).util.current,
            final(self).util.cnext == old(self).util.cnext,
            handed(r) + items_of(final(self).backlog@) == opt_seq(
                old(self).util.state.item_at(old(self).util.src@, old(self).util.current as int),
            ) + seq![
                Err(
                    locate(
                        old(self).util.src@,
                        ErrorKind::UnexpectedCharacter(c),
                        reason@,
                        old(self).util.current as int,
                        1,
                    ),
                ),
            ],
    {
        let first = self.emit(State::Idle);
        let f = Failure {
            kind: ErrorKind::UnexpectedCharacter(c),
            reason,
            at: self.util.current,
            width: 1,
        };
        self.report(first, f)
    }

    /// Reads a string literal whose opening quote was just read and puts it
    /// in flight; a malformed one is reported instead.
    fn string(&mut self, kind: StringType) -> (r: Option<Result<Token, Error>>)
        requires
            old(self).stepping(),
            old(self).util.current < old(self).util.src.len(),
            old(self).util.cnext == old(self).util.current + 1,
        ensures
            final(self).wf(),
            final(self).state is Parsing,
            final(self).util.src == old(self).util.src,
            final(self).util.cnext > old(self).util.current,
            final(self).backlog@.len() <= 1,
            r is None ==> final(self).backlog@.len() == 0,
            ({
                let src = old(self).util.src@;
                let p = old(self).util.current as int;
                let scan = if kind is DoubleQuote {
                    scan_double(src, p + 1)
                } else {
                    scan_single(src, p + 1)
                };
                opt_seq(old(self).util.state.item_at(src, p)) + (seq![
                    text_item(src, scan, (kind is DoubleQuote)),
                ] + lex_from(src, scan.next(), Prev::Other)) == handed(r)
                    + final(self).remaining()
            }),
    {
        let ghost src = self.util.src@;
        let ghost p = self.util.current as int;
        let start: usize = self.util.current;
        let first = self.emit(State::Idle);
        proof {
            lemma_scan_double_bounds(src, p + 1);
            lemma_scan_single_bounds(src, p + 1);
        }
        let read = match kind {
            StringType::DoubleQuote => self.util.read_double(),
            StringType::SingleQuote => self.util.read_single(),
        };
        let ghost scan = scanned_text(read, self.util.cnext as int);
        match read {
            Ok(content) => {
                let end: usize = self.util.cnext;
                self.util.state = State::String { start, end, content, kind };
                proof {
                    let rest = lex_from(src, scan.next(), Prev::Other);
                    let item = text_item(src, scan, (kind is DoubleQuote));
                    assert(items_of(self.backlog@) =~= Seq::<Item>::empty());
                    assert(self.util.state.stream(src, self.util.cnext as int) =~= seq![item]
                        + rest);
                    assert(self.remaining() =~= seq![item] + rest);
                }
                first
            },
            Err(f) => {
                let r = self.report(first, f);
                proof {
                    let rest = lex_from(src, scan.next(), Prev::Other);
                    let item = text_item(src, scan, (kind is DoubleQuote));
                    assert(self.util.state.stream(src, self.util.cnext as int) =~= rest);
                    assert(self.remaining() =~= items_of(self.backlog@) + rest);
                    assert(handed(r) + self.remaining() =~= (handed(r) + items_of(self.backlog@))
                        + rest);
                    assert(handed(first) + (seq![item] + rest) =~= (handed(first) + seq![item])
                        + rest);
                }
                r
            },
        }
    }

    /// A letter: it opens a suffix after a numeral, extends a suffix or a
    /// statement, and opens a statement elsewhere.
    fn letter(&mut self, c: char) -> (r: Option<Result<Token, Error>>)
        requires
            old(self).ready(c),
            is_letter(c),
        ensures
            stepped(old(self), final(self), r),
    {
        let ghost src = self.util.src@;
        let ghost p = self.util.current as int;
        let ghost before = self.util.state;
        let cur: usize = self.util.current;
        if self.util.state.is_suffix() || self.util.state.is_statement() {
            proof {
                lemma_extend(before, src, p);
                assert(items_of(self.backlog@) =~= Seq::<Item>::empty());
                assert(self.remaining() =~= before.stream(src, p + 1));
                assert(handed(None) + self.remaining() =~= self.remaining());
            }
            return None;
        }
        proof {
            lemma_close(before, src, p);
        }
        let r = if self.util.state.is_numeral() {
            self.emit(State::Suffix { start: cur, end: cur })
        } else {
            self.emit(State::Statement { start: cur, end: cur })
        };
        proof {
            assert(items_of(self.backlog@) =~= Seq::<Item>::empty());
            assert(self.remaining() =~= lex_from(src, p, before.prev()));
        }
        r
    }

    /// A digit: it extends a numeral or a statement, is an error after a
    /// suffix, and opens a numeral elsewhere.
    fn digit(&mut self, c: char) -> (r: Option<Result<Token, Error>>)
        requires
            old(self).ready(c),
            is_digit(c),
        ensures
            stepped(old(self), final(self), r),
    {
        let ghost src = self.util.src@;
        let ghost p = self.util.current as int;
        let ghost before = self.util.state;
        let cur: usize = self.util.current;
        if self.util.state.is_numeral() || self.util.state.is_statement() {
            proof {
                lemma_extend(before, src, p);
                assert(items_of(self.backlog@) =~= Seq::<Item>::empty());
                assert(self.remaining() =~= before.stream(src, p + 1));
                assert(handed(None) + self.remaining() =~= self.remaining());
            }
            return None;
        }
        proof {
            lemma_close(before, src, p);
        }
        if self.util.state.is_suffix() {
            let r = self.unexpected(c, String::from_str("A number suffix can not contain numbers"));
            proof {
                let e = locate(src, ErrorKind::UnexpectedCharacter(c), msg_suffix_digit(), p, 1);
                lemma_reported(self, before, src, p, r, e);
            }
            r
        } else {
            let r = self.emit(State::Numeral { start: cur, end: cur });
            proof {
                assert(items_of(self.backlog@) =~= Seq::<Item>::empty());
                assert(self.remaining() =~= lex_from(src, p, before.prev()));
            }
            r
        }
    }

    /// Punctuation or a line break: a token of its own. A line feed after a
    /// carriage return belongs to the same line break.
    fn mark(&mut self, c: char) -> (r: Option<Result<Token, Error>>)
        requires
            old(self).ready(c),
            mark_at(old(self).util.src@, old(self).util.current as int) is Some,
        ensures
            stepped(old(self), final(self), r),
    {
        let ghost src = self.util.src@;
        let ghost p = self.util.current as int;
        let ghost before = self.util.state;
        proof {
            lemma_close(before, src, p);
        }
        let next = if c == '.' {
            State::Dot
        } else if c == '{' {
            State::Block(BlockType::Open)
        } else if c == '}' {
            State::Block(BlockType::Close)
        } else if c == '\r' || c == '\n' {
            State::NewLine
        } else {
            State::EqualitySwitch(EqualityType::from(c))
        };
        let r = self.emit(next);
        if c == '\r' {
            match self.util.peek() {
                Some('\n') => {
                    self.util.advance();
                },
                _ => {},
            }
        }
        proof {
            assert(items_of(self.backlog@) =~= Seq::<Item>::empty());
            assert(self.remaining() =~= lex_from(src, p, before.prev()));
        }
        r
    }

    /// White space: it extends a spacer and opens one elsewhere.
    fn space(&mut self, c: char) -> (r: Option<Result<Token, Error>>)
        requires
            old(self).ready(c),
            is_space(c),
        ensures
            stepped(old(self), final(self), r),
    {
        let ghost src = self.util.src@;
        let ghost p = self.util.current as int;
        let ghost before = self.util.state;
        if self.util.state.is_spacer() {
            proof {
                lemma_extend(before, src, p);
                assert(items_of(self.backlog@) =~= Seq::<Item>::empty());
                assert(self.remaining() =~= before.stream(src, p + 1));
                assert(handed(None) + self.remaining() =~= self.remaining());
            }
            None
        } else {
            proof {
                lemma_close(before, src, p);
            }
            let r = self.emit(State::Spacer);
            proof {
                assert(items_of(self.backlog@) =~= Seq::<Item>::empty());
                assert(self.remaining() =~= lex_from(src, p, before.prev()));
            }
            r
        }
    }

    /// A character that starts no token: an error.
    fn foreign(&mut self, c: char) -> (r: Option<Result<Token, Error>>)
        requires
            old(self).ready(c),
            !is_letter(c),
            !is_digit(c),
            c != '"',
            c != '\'',
            mark_at(old(self).util.src@, old(self).util.current as int) is None,
            !is_space(c),
        ensures
            stepped(old(self), final(self), r),
    {
        let ghost src = self.util.src@;
        let ghost p = self.util.current as int;
        let ghost before = self.util.state;
        proof {
            lemma_close(before, src, p);
        }
        let mut reason = String::from_str("Unexpected character `");
        push_char(&mut reason, c);
        reason.append("`");
        assert(reason@ =~= msg_unexpected(c));
        let r = self.unexpected(c, reason);
        proof {
            let e = locate(src, ErrorKind::UnexpectedCharacter(c), msg_unexpected(c), p, 1);
            lemma_reported(self, before, src, p, r, e);
        }
        r
    }

    /// A quote: the string literal that it opens.
    fn quote(&mut self, c: char) -> (r: Option<Result<Token, Error>>)
        requires
            old(self).ready(c),
            c == '"' || c == '\'',
        ensures
            stepped(old(self), final(self), r),
    {
        proof {
            lemma_close(self.util.state, self.util.src@, self.util.current as int);
        }
        if c == '"' {
            self.string(StringType::DoubleQuote)
        } else {
            self.string(StringType::SingleQuote)
        }
    }

    /// Carries the state machine over the character `c` that was just read.
    fn step(&mut self, c: char) -> (r: Option<Result<Token, Error>>)
        requires
            old(self).ready(c),
        ensures
            stepped(old(self), final(self), r),
    {
        if is_letter_char(c) {
            self.letter(c)
        } else if is_digit_char(c) {
            self.digit(c)
        } else if c == '"' || c == '\'' {
            self.quote(c)
        } else if c == '.' || c == '=' || c == '~' || c == '^' || c == '$' || c == '_' || c == '{'
            || c == '}' || c == '\r' || c == '\n' {
            self.mark(c)
        } else if is_space_char(c) {
            self.space(c)
        } else {
            self.foreign(c)
        }
    }

    /// The next token or error; `None` once `Eof` has been handed out.
    pub fn next(&mut self) -> (r: Option<Result<Token, Error>>)
        requires
            old(self).wf(),
        ensures
            final(self).wf(),
            final(self).source() == old(self).source(),
            old(self).remaining().len() == 0 ==> r is None && final(self).remaining().len() == 0,
            old(self).remaining().len() > 0 ==> (r matches Some(x) && item_view(x)
                == old(self).remaining()[0]),
            old(self).remaining().len() > 0 ==> final(self).remaining()
                == old(self).remaining().drop_first(),
    {
        loop
            invariant
                self.wf(),
                self.util.src == old(self).util.src,
                self.remaining() == old(self).remaining(),
            decreases
                    (if self.state is Parsing {
                        1int
                    } else {
                        0int
                    }),
                    self.util.src.len() - self.util.cnext,
        {
            let ghost all = self.remaining();
            let ghost queue = self.backlog@;
            if let Some(item) = self.backlog.pop_front() {
                proof {
                    assert(items_of(queue)[0] == item_view(item));
                    assert(items_of(self.backlog@) =~= items_of(queue).drop_first());
                    assert(self.remaining() =~= all.drop_first());
                }
                return Some(item);
            }
            assert(items_of(self.backlog@) =~= Seq::<Item>::empty());
            match self.state {
                PreState::Parsing => {},
                PreState::Eof => {
                    self.state = PreState::Done;
                    assert(self.remaining() =~= all.drop_first());
                    return Some(Ok(Token::Eof));
                },
                PreState::Done => {
                    assert(all =~= Seq::<Item>::empty());
                    return None;
                },
            }
            let ghost before = self.util.state;
            let ghost src = self.util.src@;
            let ghost pos = self.util.cnext as int;
            assert(all =~= before.stream(src, pos));
            match self.util.next() {
                None => {
                    self.state = PreState::Eof;
                    proof {
                        lemma_run_end_at_end(src, before);
                    }
                    let r = self.emit(State::Idle);
                    match r {
                        Some(item) => {
                            assert(self.remaining() =~= seq![Ok(Lexeme::Eof)]);
                            assert(all =~= seq![item_view(item)] + self.remaining());
                            assert(self.remaining() =~= all.drop_first());
                            return Some(item);
                        },
                        None => {
                            assert(self.remaining() =~= seq![Ok(Lexeme::Eof)]);
                            assert(all =~= self.remaining());
                        },
                    }
                },
                Some(c) => {
                    let r = self.step(c);
                    match r {
                        Some(item) => {
                            assert(all =~= seq![item_view(item)] + self.remaining());
                            assert(self.remaining() =~= all.drop_first());
                            return Some(item);
                        },
                        None => {
                            assert(all =~= self.remaining());
                        },
                    }
                },
            }
        }
    }

    /// All the items that are still to come.
    pub fn collect(self) -> (items: Vec<Result<Token, Error>>)
        requires
            self.wf(),
        ensures
            items_of(items@) == self.remaining(),
    {
        let mut tokenizer = self;
        let mut items: Vec<Result<Token, Error>> = Vec::new();
        assert(items_of(items@) + tokenizer.remaining() =~= self.remaining());
        loop
            invariant
                tokenizer.wf(),
                items_of(items@) + tokenizer.remaining() == self.remaining(),
            decreases tokenizer.remaining().len(),
        {
            let ghost rest = tokenizer.remaining();
            let ghost done = items@;
            match tokenizer.next() {
                Some(item) => {
                    items.push(item);
                    assert(items_of(items@) =~= items_of(done).push(item_view(item)));
                    assert(items_of(items@) + tokenizer.remaining() =~= items_of(done) + rest);
                },
                None => {
                    assert(items_of(items@) + tokenizer.remaining() =~= items_of(items@));
                    return items;
                },
            }
        }
    }
}

/// At the end of the source every state's text stops.
pub proof fn lemma_run_end_at_end(src: Seq<char>, state: State)
    ensures
        state.stream(src, src.len() as int) == opt_seq(state.item_at(src, src.len() as int))
            + seq![Ok(Lexeme::Eof)],
{
}

/// A tokenizer at the start of `src`.
pub fn tokenize(src: &str) -> (t: Tokenizer)
    ensures
        t.wf(),
        t.source() == src@,
        t.remaining() == lex(src@),
{
    // The bytes of a string are a slice, so their number fits in `usize`.
    let n: usize = src.as_bytes().len();
    assert(super::grammar::utf8_len(src@) == n);
    let t = Tokenizer {
        util: Util { src: to_chars(src), state: State::Idle, current: 0, cnext: 0 },
        state: PreState::Parsing,
        backlog: VecDeque::new(),
    };
    assert(t.remaining() =~= lex(src@)) by {
        assert(items_of(t.backlog@) =~= Seq::<Item>::empty());
    }
    t
}

} // verus!
