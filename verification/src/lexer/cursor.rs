//! The cursor over the source text, with the state in flight, and the
//! readers for string literals and their escapes.

use super::grammar::{
    bad_char, bad_eof, digit_val, digits_value, escape_at, hex_escape, hex_run_end, is_digit,
    is_hex, is_letter, is_space, lemma_escape_bounds, msg_unicode_code, msg_unknown_escape,
    scan_double, scan_single, unicode_escape, utf8_len, Scan,
};
use super::state::{digit_of, submitted, State};
use super::token::{Error, ErrorKind, Token};
use crate::text::{char_from_code, push_char, push_decimal};
use vstd::prelude::*;
use vstd::string::StringExecFns;

verus! {

/// Tells whether `c` is an ASCII letter.
pub fn is_letter_char(c: char) -> (r: bool)
    ensures
        r == is_letter(c),
{
    ('a' <= c && c <= 'z') || ('A' <= c && c <= 'Z')
}

/// Tells whether `c` is an ASCII decimal digit.
pub fn is_digit_char(c: char) -> (r: bool)
    ensures
        r == is_digit(c),
{
    '0' <= c && c <= '9'
}

/// Tells whether `c` is an ASCII hexadecimal digit.
pub fn is_hex_char(c: char) -> (r: bool)
    ensures
        r == is_hex(c),
{
    ('0' <= c && c <= '9') || ('a' <= c && c <= 'f') || ('A' <= c && c <= 'F')
}

/// Tells whether `c` is white space other than a line break.
pub fn is_space_char(c: char) -> (r: bool)
    ensures
        r == is_space(c),
{
    c == '\t' || c == '\u{0B}' || c == '\u{0C}' || c == ' ' || c == '\u{85}' || c == '\u{A0}' || c
        == '\u{1680}' || ('\u{2000}' <= c && c <= '\u{200A}') || c == '\u{2028}' || c == '\u{2029}'
        || c == '\u{202F}' || c == '\u{205F}' || c == '\u{3000}'
}

/// Why a string literal could not be read: what is wrong, at which character
/// index, and over how many bytes.
pub struct Failure {
    pub kind: ErrorKind,
    pub reason: String,
    pub at: usize,
    pub width: usize,
}

/// Model of a read escape: the character, or the failure, and the index that
/// the cursor was left at.
pub open spec fn scanned_char(r: Result<char, Failure>, next: int) -> Scan {
    match r {
        Ok(c) => Scan::Closed { content: seq![c], next },
        Err(f) => Scan::Failed {
            kind: f.kind,
            reason: f.reason@,
            at: f.at as int,
            width: f.width as int,
            next,
        },
    }
}

/// Model of a read string literal.
pub open spec fn scanned_text(r: Result<String, Failure>, next: int) -> Scan {
    match r {
        Ok(s) => Scan::Closed { content: s@, next },
        Err(f) => Scan::Failed {
            kind: f.kind,
            reason: f.reason@,
            at: f.at as int,
            width: f.width as int,
            next,
        },
    }
}

/// Putting `b` and then `a` in front is putting `a + b` in front.
pub proof fn lemma_after_after(x: Scan, a: Seq<char>, b: Seq<char>)
    ensures
        x.after(b).after(a) == x.after(a + b),
{
    match x {
        Scan::Closed { content, next } => {
            assert(a + (b + content) =~= (a + b) + content);
        },
        _ => {},
    }
}

/// The source, the index of the character read last, the index of the next
/// one, and the state in flight. The indices count characters; the positions
/// that errors report are turned into bytes when an error is built.
pub struct Util {
    pub src: Vec<char>,
    pub state: State,
    pub current: usize,
    pub cnext: usize,
}

impl Util {
    /// The cursor is inside the source and the state began before it.
    pub open spec fn wf(&self) -> bool {
        &&& self.current <= self.cnext <= self.src.len()
        &&& utf8_len(self.src@) <= usize::MAX
        &&& self.state.within(self.src@, self.current as int)
    }

    /// The source and the state are those of `other`.
    pub open spec fn same_text(&self, other: &Util) -> bool {
        self.src == other.src && self.state == other.state
    }

    /// Hands out the state in flight as its token and puts `next` in flight.
    pub fn submit(&mut self, next: State) -> (r: Result<Option<Token>, Error>)
        requires
            old(self).wf(),
            next.within(old(self).src@, old(self).current as int),
        ensures
            final(self).wf(),
            final(self).state == next,
            final(self).src == old(self).src,
            final(self).current == old(self).current,
            final(self).cnext == old(self).cnext,
            submitted(r) == old(self).state.item_at(old(self).src@, old(self).current as int),
    {
        self.state.complete(self.current);
        self.state.tokenize(next, &self.src)
    }

    /// Tells whether a character is left to read.
    pub fn is_available(&self) -> (r: bool)
        ensures
            r == (self.cnext < self.src.len()),
    {
        self.src.len() > self.cnext
    }

    /// Reads the next character, if there is one.
    pub fn advance(&mut self)
        requires
            old(self).wf(),
        ensures
            final(self).wf(),
            final(self).same_text(old(self)),
            final(self).current == old(self).cnext,
            final(self).cnext == if old(self).cnext < old(self).src.len() {
                old(self).cnext + 1
            } else {
                old(self).cnext as int
            },
    {
        let _ = self.next();
    }

    /// The next character, without reading it.
    pub fn peek(&self) -> (r: Option<char>)
        requires
            self.wf(),
        ensures
            r == if self.cnext < self.src.len() {
                Some(self.src@[self.cnext as int])
            } else {
                None
            },
    {
        if !self.is_available() {
            None
        } else {
            Some(self.src[self.cnext])
        }
    }

    /// Reads the next character: `current` then names it, or the end of the
    /// source.
    pub fn next(&mut self) -> (r: Option<char>)
        requires
            old(self).wf(),
        ensures
            final(self).wf(),
            final(self).same_text(old(self)),
            final(self).current == old(self).cnext,
            old(self).cnext < old(self).src.len() ==> r == Some(
                old(self).src@[old(self).cnext as int],
            ) && final(self).cnext == old(self).cnext + 1,
            old(self).cnext >= old(self).src.len() ==> r is None && final(self).cnext == old(
                self,
            ).cnext,
    {
        if !self.is_available() {
            self.current = self.cnext;
            None
        } else {
            let c: char = self.src[self.cnext];
            self.current = self.cnext;
            self.cnext = self.cnext + 1;
            Some(c)
        }
    }

    /// A failure because the source ended.
    fn eof_failure(&self, reason: String) -> (f: Failure)
        requires
            self.wf(),
        ensures
            forall|next: int|
                #![trigger scanned_char(Err(f), next)]
                next == self.src.len() ==> scanned_char(Err(f), next) == bad_eof(
                    self.src@,
                    reason@,
                ),
            forall|next: int|
                #![trigger scanned_text(Err(f), next)]
                next == self.src.len() ==> scanned_text(Err(f), next) == bad_eof(
                    self.src@,
                    reason@,
                ),
    {
        Failure { kind: ErrorKind::EarlyEof, reason, at: self.src.len(), width: 1 }
    }

    /// A failure on the character read last.
    fn char_failure(&self, reason: String) -> (f: Failure)
        requires
            self.wf(),
            self.current < self.src.len(),
        ensures
            forall|next: int|
                #![trigger scanned_char(Err(f), next)]
                next == self.current + 1 ==> scanned_char(Err(f), next) == bad_char(
                    self.src@,
                    self.current as int,
                    reason@,
                ),
            forall|next: int|
                #![trigger scanned_text(Err(f), next)]
                next == self.current + 1 ==> scanned_text(Err(f), next) == bad_char(
                    self.src@,
                    self.current as int,
                    reason@,
                ),
    {
        Failure {
            kind: ErrorKind::UnexpectedCharacter(self.src[self.current]),
            reason,
            at: self.current,
            width: 1,
        }
    }

    /// Reads the two hex digits of a `\x` escape.
    pub fn read_hex_escape(&mut self) -> (r: Result<char, Failure>)
        requires
            old(self).wf(),
        ensures
            final(self).wf(),
            final(self).same_text(old(self)),
            scanned_char(r, final(self).cnext as int) == hex_escape(
                old(self).src@,
                old(self).cnext as int,
            ),
    {
        let ghost start = self.cnext as int;
        let ghost src = self.src@;
        let first: char = match self.next() {
            Some(c) => c,
            None => {
                return Err(self.eof_failure(String::from_str("Reached EOF mid string escape")));
            },
        };
        if !is_hex_char(first) {
            return Err(
                self.char_failure(
                    String::from_str(
                        "A `\\xXX` string escape code may only use a 2 digit hex numbers as value",
                    ),
                ),
            );
        }
        let second: char = match self.next() {
            Some(c) => c,
            None => {
                return Err(self.eof_failure(String::from_str("Reached EOF mid string escape")));
            },
        };
        if !is_hex_char(second) {
            return Err(
                self.char_failure(
                    String::from_str(
                        "A `\\xXX` string escape code may only use a 2 digit hex numbers as value",
                    ),
                ),
            );
        }
        let code: u32 = digit_of(first) * 16 + digit_of(second);
        proof {
            let two = src.subrange(start, start + 2);
            assert(two.drop_last() =~= seq![first]);
            assert(two.drop_last().drop_last() =~= Seq::<char>::empty());
            assert(digits_value(two.drop_last(), 16) == digit_val(first)) by {
                assert(digits_value(two.drop_last().drop_last(), 16) == 0);
                assert(two.drop_last().last() == first);
            }
            assert(two.last() == second);
            assert(digits_value(two, 16) == code);
        }
        Ok((code as u8) as char)
    }

    /// Reads the braces and digits of a `\u` escape.
    pub fn read_unicode_escape(&mut self) -> (r: Result<char, Failure>)
        requires
            old(self).wf(),
        ensures
            final(self).wf(),
            final(self).same_text(old(self)),
            scanned_char(r, final(self).cnext as int) == unicode_escape(
                old(self).src@,
                old(self).cnext as int,
            ),
    {
        let ghost src = self.src@;
        match self.next() {
            Some(c) => {
                if c != '{' {
                    return Err(
                        self.char_failure(
                            String::from_str(
                                "`\\u{XXXXXX}` string escapes require a `{` at the beginning of the value",
                            ),
                        ),
                    );
                }
            },
            None => {
                return Err(self.eof_failure(String::from_str("Reached EOF mid string escape")));
            },
        }
        let first: usize = self.cnext;
        let mut count: usize = 0;
        let mut code: u32 = 0;
        while count < 6
            invariant
                self.wf(),
                self.src@ == src,
                self.same_text(old(self)),
                count <= 6,
                self.cnext == first + count,
                hex_run_end(src, first as int, 6) == hex_run_end(
                    src,
                    self.cnext as int,
                    6 - count,
                ),
                code == digits_value(src.subrange(first as int, self.cnext as int), 16),
                count == 0 ==> code == 0,
                count == 1 ==> code < 0x10,
                count == 2 ==> code < 0x100,
                count == 3 ==> code < 0x1000,
                count == 4 ==> code < 0x10000,
                count == 5 ==> code < 0x100000,
                count == 6 ==> code < 0x1000000,
            ensures
                self.wf(),
                self.src@ == src,
                self.same_text(old(self)),
                count <= 6,
                self.cnext == first + count,
                hex_run_end(src, first as int, 6) == self.cnext,
                code == digits_value(src.subrange(first as int, self.cnext as int), 16),
                code < 0x1000000,
            decreases 6 - count,
        {
            let digit: char = match self.peek() {
                Some(c) => c,
                None => {
                    break ;
                },
            };
            if !is_hex_char(digit) {
                break ;
            }
            proof {
                let longer = src.subrange(first as int, self.cnext + 1);
                assert(longer.drop_last() =~= src.subrange(first as int, self.cnext as int));
                assert(longer.last() == digit);
            }
            code = code * 16 + digit_of(digit);
            self.advance();
            count = count + 1;
        }
        match self.next() {
            None => Err(self.eof_failure(String::from_str("Reached EOF mid string escape"))),
            Some(c) => {
                if count < 2 {
                    Err(
                        self.char_failure(
                            String::from_str(
                                "`\\u{XXXXXX}` string escapes may only use a 2-6 digit hex numbers as inner value",
                            ),
                        ),
                    )
                } else if c != '}' {
                    Err(
                        self.char_failure(
                            String::from_str(
                                "`\\u{XXXXXX}` string escapes require a `}` at the end of the value",
                            ),
                        ),
                    )
                } else {
                    match char_from_code(code) {
                        Some(c) => Ok(c),
                        None => {
                            let mut reason = String::from_str("`");
                            push_decimal(&mut reason, code as u64);
                            reason.append("` is not a valid UTF-8 codepoint");
                            assert(reason@ =~= msg_unicode_code(code as nat));
                            Err(
                                Failure {
                                    kind: ErrorKind::InvalidCharacterCode(code as u64),
                                    reason,
                                    at: first,
                                    width: count,
                                },
                            )
                        },
                    }
                }
            },
        }
    }

    /// Reads the escape that follows a backslash.
    pub fn read_escape(&mut self) -> (r: Result<char, Failure>)
        requires
            old(self).wf(),
        ensures
            final(self).wf(),
            final(self).same_text(old(self)),
            scanned_char(r, final(self).cnext as int) == escape_at(
                old(self).src@,
                old(self).cnext as int,
            ),
    {
        match self.next() {
            None => Err(self.eof_failure(String::from_str("Reached EOF mid string escape"))),
            Some(c) => {
                if c == '0' {
                    Ok('\0')
                } else if c == 'n' {
                    Ok('\n')
                } else if c == 'r' {
                    Ok('\r')
                } else if c == 't' {
                    Ok('\t')
                } else if c == '"' {
                    Ok('"')
                } else if c == 'x' {
                    self.read_hex_escape()
                } else if c == 'u' {
                    self.read_unicode_escape()
                } else {
                    let mut reason = String::from_str("`\\");
                    push_char(&mut reason, c);
                    reason.append("` is not a known string escape");
                    assert(reason@ =~= msg_unknown_escape(c));
                    Err(self.char_failure(reason))
                }
            },
        }
    }

    /// Reads a double-quoted string whose opening quote was just read.
    pub fn read_double(&mut self) -> (r: Result<String, Failure>)
        requires
            old(self).wf(),
        ensures
            final(self).wf(),
            final(self).same_text(old(self)),
            scanned_text(r, final(self).cnext as int) == scan_double(
                old(self).src@,
                old(self).cnext as int,
            ),
    {
        let ghost src = self.src@;
        let ghost start = self.cnext as int;
        let mut buf = String::new();
        proof {
            lemma_after_empty(scan_double(src, start));
        }
        loop
            invariant
                self.wf(),
                self.src@ == src,
                self.same_text(old(self)),
                src == old(self).src@,
                start == old(self).cnext,
                scan_double(src, start) == scan_double(src, self.cnext as int).after(buf@),
            decreases self.src.len() - self.cnext,
        {
            let ghost pos = self.cnext as int;
            let ghost before = buf@;
            match self.next() {
                None => {
                    return Err(self.eof_failure(String::from_str("Reached EOF in string")));
                },
                Some(c) => {
                    if c == '"' {
                        assert(before + Seq::<char>::empty() =~= before);
                        return Ok(buf);
                    } else if c == '\\' {
                        proof {
                            lemma_escape_bounds(src, pos + 1);
                        }
                        match self.read_escape() {
                            Ok(decoded) => {
                                push_char(&mut buf, decoded);
                                proof {
                                    lemma_after_after(
                                        scan_double(src, self.cnext as int),
                                        before,
                                        seq![decoded],
                                    );
                                    assert(before + seq![decoded] =~= before.push(decoded));
                                }
                            },
                            Err(f) => {
                                return Err(f);
                            },
                        }
                    } else if c == '\r' || c == '\n' {
                        return Err(
                            self.char_failure(
                                String::from_str(
                                    "Newlines are not allowed in double quote strings, use `\\n` or similar",
                                ),
                            ),
                        );
                    } else {
                        push_char(&mut buf, c);
                        proof {
                            lemma_after_after(scan_double(src, self.cnext as int), before, seq![c]);
                            assert(before + seq![c] =~= before.push(c));
                        }
                    }
                },
            }
        }
    }

    /// Reads a single-quoted string whose opening quote was just read.
    pub fn read_single(&mut self) -> (r: Result<String, Failure>)
        requires
            old(self).wf(),
        ensures
            final(self).wf(),
            final(self).same_text(old(self)),
            scanned_text(r, final(self).cnext as int) == scan_single(
                old(self).src@,
                old(self).cnext as int,
            ),
    {
        let ghost src = self.src@;
        let ghost start = self.cnext as int;
        let mut buf = String::new();
        proof {
            lemma_after_empty(scan_single(src, start));
        }
        loop
            invariant
                self.wf(),
                self.src@ == src,
                self.same_text(old(self)),
                src == old(self).src@,
                start == old(self).cnext,
                scan_single(src, start) == scan_single(src, self.cnext as int).after(buf@),
            decreases self.src.len() - self.cnext,
        {
            let ghost before = buf@;
            match self.next() {
                None => {
                    return Err(self.eof_failure(String::from_str("Reached EOF in string")));
                },
                Some(c) => {
                    if c == '\'' {
                        match self.peek() {
                            Some('\'') => {
                                self.advance();
                                push_char(&mut buf, '\'');
                                proof {
                                    lemma_after_after(
                                        scan_single(src, self.cnext as int),
                                        before,
                                        seq!['\''],
                                    );
                                    assert(before + seq!['\''] =~= before.push('\''));
                                }
                            },
                            _ => {
                                assert(before + Seq::<char>::empty() =~= before);
                                return Ok(buf);
                            },
                        }
                    } else {
                        push_char(&mut buf, c);
                        proof {
                            lemma_after_after(scan_single(src, self.cnext as int), before, seq![c]);
                            assert(before + seq![c] =~= before.push(c));
                        }
                    }
                },
            }
        }
    }
}

/// Putting nothing in front changes nothing.
pub proof fn lemma_after_empty(x: Scan)
    ensures
        x.after(Seq::<char>::empty()) == x,
{
    match x {
        Scan::Closed { content, next } => {
            assert(Seq::<char>::empty() + content =~= content);
        },
        _ => {},
    }
}

} // verus!
