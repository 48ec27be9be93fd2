//! The lexical grammar as mathematics: character classes, maximal runs,
//! string escapes, error locations, and the stream of items that a source
//! text denotes.

use super::token::{BlockType, EqualityType, ErrorKind, Fault, Item, Lexeme};
use crate::text::decimal;
use vstd::prelude::*;
use vstd::utf8::encode_utf8;

verus! {

/// ASCII letters.
pub open spec fn is_letter(c: char) -> bool {
    ('a' <= c && c <= 'z') || ('A' <= c && c <= 'Z')
}

/// ASCII decimal digits.
pub open spec fn is_digit(c: char) -> bool {
    '0' <= c && c <= '9'
}

/// ASCII hexadecimal digits.
pub open spec fn is_hex(c: char) -> bool {
    is_digit(c) || ('a' <= c && c <= 'f') || ('A' <= c && c <= 'F')
}

/// Unicode white space other than the two line-break characters.
pub open spec fn is_space(c: char) -> bool {
    c == '\t' || c == '\u{0B}' || c == '\u{0C}' || c == ' ' || c == '\u{85}' || c == '\u{A0}' || c
        == '\u{1680}' || ('\u{2000}' <= c && c <= '\u{200A}') || c == '\u{2028}' || c == '\u{2029}'
        || c == '\u{202F}' || c == '\u{205F}' || c == '\u{3000}'
}

/// The character classes whose maximal runs form one token.
pub enum Class {
    Letter,
    Alnum,
    Digit,
    Space,
}

/// Membership of a character in a class.
pub open spec fn in_class(cl: Class, c: char) -> bool {
    match cl {
        Class::Letter => is_letter(c),
        Class::Alnum => is_letter(c) || is_digit(c),
        Class::Digit => is_digit(c),
        Class::Space => is_space(c),
    }
}

/// The first index at or after `pos` whose character is outside `cl`, or the
/// length of the source.
pub open spec fn run_end(src: Seq<char>, pos: int, cl: Class) -> int
    decreases src.len() - pos,
{
    if 0 <= pos < src.len() && in_class(cl, src[pos]) {
        run_end(src, pos + 1, cl)
    } else {
        pos
    }
}

/// A run ends inside the source, holds only characters of its class, and
/// is followed by none.
pub proof fn lemma_run_end_bounds(src: Seq<char>, pos: int, cl: Class)
    requires
        0 <= pos <= src.len(),
    ensures
        pos <= run_end(src, pos, cl) <= src.len(),
        forall|i: int| pos <= i < run_end(src, pos, cl) ==> in_class(cl, #[trigger] src[i]),
        run_end(src, pos, cl) < src.len() ==> !in_class(cl, src[run_end(src, pos, cl)]),
    decreases src.len() - pos,
{
    if pos < src.len() && in_class(cl, src[pos]) {
        lemma_run_end_bounds(src, pos + 1, cl);
    }
}

/// Value of one decimal or hexadecimal digit.
pub open spec fn digit_val(c: char) -> nat {
    if is_digit(c) {
        (c as nat - '0' as nat) as nat
    } else if 'a' <= c && c <= 'f' {
        (c as nat - 'a' as nat + 10) as nat
    } else if 'A' <= c && c <= 'F' {
        (c as nat - 'A' as nat + 10) as nat
    } else {
        0
    }
}

/// Value of a digit string in the given base, most significant digit first.
pub open spec fn digits_value(s: Seq<char>, base: nat) -> nat
    decreases s.len(),
{
    if s.len() == 0 {
        0
    } else {
        digits_value(s.drop_last(), base) * base + digit_val(s.last())
    }
}

/// True for the code points that are characters: at most `0x10FFFF` and no
/// surrogate.
pub open spec fn is_scalar_value(code: nat) -> bool {
    code <= 0xD7FF || (0xE000 <= code && code <= 0x10FFFF)
}

// ---------------------------------------------------------------------------
// Messages

/// The reason given for a digit right after a suffix.
pub open spec fn msg_suffix_digit() -> Seq<char> {
    "A number suffix can not contain numbers"@
}

/// The reason given where the source ends inside an escape.
pub open spec fn msg_eof_escape() -> Seq<char> {
    "Reached EOF mid string escape"@
}

/// The reason given where the source ends inside a string literal.
pub open spec fn msg_eof_string() -> Seq<char> {
    "Reached EOF in string"@
}

/// The reason given for a `\\x` escape without two hex digits.
pub open spec fn msg_hex_escape() -> Seq<char> {
    "A `\\xXX` string escape code may only use a 2 digit hex numbers as value"@
}

/// The reason given for a `\\u` escape without `{`.
pub open spec fn msg_unicode_open() -> Seq<char> {
    "`\\u{XXXXXX}` string escapes require a `{` at the beginning of the value"@
}

/// The reason given for a `\\u` escape with fewer than two hex digits.
pub open spec fn msg_unicode_digits() -> Seq<char> {
    "`\\u{XXXXXX}` string escapes may only use a 2-6 digit hex numbers as inner value"@
}

/// The reason given for a `\\u` escape without `}`.
pub open spec fn msg_unicode_close() -> Seq<char> {
    "`\\u{XXXXXX}` string escapes require a `}` at the end of the value"@
}

/// The reason given for a `\\u` escape whose code is no character.
pub open spec fn msg_unicode_code(code: nat) -> Seq<char> {
    "`"@ + decimal(code) + "` is not a valid UTF-8 codepoint"@
}

/// The reason given for a line break inside a double-quoted string.
pub open spec fn msg_newline() -> Seq<char> {
    "Newlines are not allowed in double quote strings, use `\\n` or similar"@
}

/// The reason given for an escape that does not exist.
pub open spec fn msg_unknown_escape(c: char) -> Seq<char> {
    "`\\"@ + seq![c] + "` is not a known string escape"@
}

/// The reason given for a character that starts no token.
pub open spec fn msg_unexpected(c: char) -> Seq<char> {
    "Unexpected character `"@ + seq![c] + "`"@
}

/// The reason given for a numeral that does not fit in 64 bits.
pub open spec fn msg_number(digits: Seq<char>) -> Seq<char> {
    "`"@ + digits + "` failed to parse this as number"@
}

// ---------------------------------------------------------------------------
// Error locations

/// A line ends with the character at `i`: a line feed, or a carriage return
/// that no line feed follows.
pub open spec fn is_break(src: Seq<char>, i: int) -> bool {
    0 <= i < src.len() && (src[i] == '\n' || (src[i] == '\r' && !(i + 1 < src.len() && src[i + 1]
        == '\n')))
}

/// Number of line breaks before index `at`.
pub open spec fn line_of(src: Seq<char>, at: int) -> int
    decreases at,
{
    if at <= 0 {
        0
    } else {
        line_of(src, at - 1) + if is_break(src, at - 1) {
            1int
        } else {
            0int
        }
    }
}

/// Index of the first character of the line that holds index `at`.
pub open spec fn line_start(src: Seq<char>, at: int) -> int
    decreases at,
{
    if at <= 0 {
        0
    } else if is_break(src, at - 1) {
        at
    } else {
        line_start(src, at - 1)
    }
}

/// Index of the first line-break character at or after `from`, or the length
/// of the source.
pub open spec fn line_end(src: Seq<char>, from: int) -> int
    decreases src.len() - from,
{
    if 0 <= from < src.len() && src[from] != '\r' && src[from] != '\n' {
        line_end(src, from + 1)
    } else {
        from
    }
}

/// Length in bytes of the UTF-8 encoding of `s`.
pub open spec fn utf8_len(s: Seq<char>) -> int {
    encode_utf8(s).len() as int
}

/// The error reported for `width` bytes of offending text that start at
/// character index `at`: the line is found by counting line breaks, and the
/// position is the byte offset within that line. The position covers one
/// byte at least, and its end saturates.
pub open spec fn locate(src: Seq<char>, kind: ErrorKind, reason: Seq<char>, at: int, width: int)
    -> Fault {
    let ls = line_start(src, at);
    let start = utf8_len(src.subrange(ls, at));
    let width = if width < 1 {
        1
    } else {
        width
    };
    Fault {
        kind,
        reason,
        line_raw: src.subrange(ls, line_end(src, ls)),
        line: line_of(src, at),
        start,
        end: if start + width <= usize::MAX {
            start + width
        } else {
            usize::MAX as int
        },
    }
}

// ---------------------------------------------------------------------------
// String literals

/// Outcome of reading a string literal or an escape: the decoded text and the
/// index after it, or what is wrong, where, and where lexing resumes.
pub enum Scan {
    Closed { content: Seq<char>, next: int },
    Failed { kind: ErrorKind, reason: Seq<char>, at: int, width: int, next: int },
}

impl Scan {
    /// The index at which lexing goes on.
    pub open spec fn next(self) -> int {
        match self {
            Scan::Closed { next, .. } => next,
            Scan::Failed { next, .. } => next,
        }
    }

    /// The same outcome with `prefix` in front of the decoded text.
    pub open spec fn after(self, prefix: Seq<char>) -> Scan {
        match self {
            Scan::Closed { content, next } => Scan::Closed { content: prefix + content, next },
            Scan::Failed { .. } => self,
        }
    }
}

/// A failure on the single character at `at`; lexing resumes after it.
pub open spec fn bad_char(src: Seq<char>, at: int, reason: Seq<char>) -> Scan {
    Scan::Failed { kind: ErrorKind::UnexpectedCharacter(src[at]), reason, at, width: 1, next: at + 1 }
}

/// A failure because the source ended.
pub open spec fn bad_eof(src: Seq<char>, reason: Seq<char>) -> Scan {
    Scan::Failed {
        kind: ErrorKind::EarlyEof,
        reason,
        at: src.len() as int,
        width: 1,
        next: src.len() as int,
    }
}

/// The escape whose introducing backslash is at `pos - 1`: `\0 \n \r \t \"`,
/// `\xHH` with exactly two hex digits, or `\u{H..}` with two to six.
pub open spec fn escape_at(src: Seq<char>, pos: int) -> Scan {
    if pos >= src.len() {
        bad_eof(src, msg_eof_escape())
    } else {
        let c = src[pos];
        if c == '0' {
            Scan::Closed { content: seq!['\0'], next: pos + 1 }
        } else if c == 'n' {
            Scan::Closed { content: seq!['\n'], next: pos + 1 }
        } else if c == 'r' {
            Scan::Closed { content: seq!['\r'], next: pos + 1 }
        } else if c == 't' {
            Scan::Closed { content: seq!['\t'], next: pos + 1 }
        } else if c == '"' {
            Scan::Closed { content: seq!['"'], next: pos + 1 }
        } else if c == 'x' {
            hex_escape(src, pos + 1)
        } else if c == 'u' {
            unicode_escape(src, pos + 1)
        } else {
            bad_char(src, pos, msg_unknown_escape(c))
        }
    }
}

/// The two hex digits of a `\x` escape, which start at `pos`.
pub open spec fn hex_escape(src: Seq<char>, pos: int) -> Scan {
    if pos >= src.len() {
        bad_eof(src, msg_eof_escape())
    } else if !is_hex(src[pos]) {
        bad_char(src, pos, msg_hex_escape())
    } else if pos + 1 >= src.len() {
        bad_eof(src, msg_eof_escape())
    } else if !is_hex(src[pos + 1]) {
        bad_char(src, pos + 1, msg_hex_escape())
    } else {
        Scan::Closed {
            content: seq![digits_value(src.subrange(pos, pos + 2), 16) as char],
            next: pos + 2,
        }
    }
}

/// Index after the hex digits that start at `pos`, at most `limit` of them.
pub open spec fn hex_run_end(src: Seq<char>, pos: int, limit: int) -> int
    decreases limit,
{
    if limit > 0 && 0 <= pos < src.len() && is_hex(src[pos]) {
        hex_run_end(src, pos + 1, limit - 1)
    } else {
        pos
    }
}

/// The braces and digits of a `\u` escape, which start at `pos`.
pub open spec fn unicode_escape(src: Seq<char>, pos: int) -> Scan {
    if pos >= src.len() {
        bad_eof(src, msg_eof_escape())
    } else if src[pos] != '{' {
        bad_char(src, pos, msg_unicode_open())
    } else {
        let end = hex_run_end(src, pos + 1, 6);
        let code = digits_value(src.subrange(pos + 1, end), 16);
        if end >= src.len() {
            bad_eof(src, msg_eof_escape())
        } else if end - (pos + 1) < 2 {
            bad_char(src, end, msg_unicode_digits())
        } else if src[end] != '}' {
            bad_char(src, end, msg_unicode_close())
        } else if !is_scalar_value(code) {
            Scan::Failed {
                kind: ErrorKind::InvalidCharacterCode(code as u64),
                reason: msg_unicode_code(code),
                at: pos + 1,
                width: end - (pos + 1),
                next: end + 1,
            }
        } else {
            Scan::Closed { content: seq![code as char], next: end + 1 }
        }
    }
}

/// A run of hex digits ends inside the source, is no longer than its limit,
/// and holds only hex digits.
pub proof fn lemma_hex_run_end_bounds(src: Seq<char>, pos: int, limit: int)
    requires
        0 <= pos <= src.len(),
        0 <= limit,
    ensures
        pos <= hex_run_end(src, pos, limit) <= src.len(),
        hex_run_end(src, pos, limit) <= pos + limit,
        forall|i: int| pos <= i < hex_run_end(src, pos, limit) ==> is_hex(#[trigger] src[i]),
    decreases limit,
{
    if limit > 0 && pos < src.len() && is_hex(src[pos]) {
        lemma_hex_run_end_bounds(src, pos + 1, limit - 1);
    }
}

/// An escape ends inside the source, and a well-formed one takes at least
/// one character.
pub proof fn lemma_escape_bounds(src: Seq<char>, pos: int)
    requires
        0 <= pos <= src.len(),
    ensures
        pos <= escape_at(src, pos).next() <= src.len(),
        escape_at(src, pos) is Closed ==> pos < escape_at(src, pos).next(),
{
    if pos < src.len() && src[pos] == 'u' && pos + 1 < src.len() {
        lemma_hex_run_end_bounds(src, pos + 2, 6);
    }
}

/// The rest of a double-quoted string from `pos` on, up to and including the
/// closing quote. A line break or a malformed escape ends it with a failure.
pub open spec fn scan_double(src: Seq<char>, pos: int) -> Scan
    decreases src.len() - pos,
{
    if pos < 0 || pos >= src.len() {
        bad_eof(src, msg_eof_string())
    } else {
        let c = src[pos];
        if c == '"' {
            Scan::Closed { content: seq![], next: pos + 1 }
        } else if c == '\\' {
            match escape_at(src, pos + 1) {
                Scan::Closed { content, next } => {
                    if next > pos {
                        scan_double(src, next).after(content)
                    } else {
                        bad_eof(src, msg_eof_string())
                    }
                },
                failed => failed,
            }
        } else if c == '\r' || c == '\n' {
            bad_char(src, pos, msg_newline())
        } else {
            scan_double(src, pos + 1).after(seq![c])
        }
    }
}

/// The rest of a single-quoted string from `pos` on, up to and including the
/// closing quote. Two quotes in a row stand for one.
pub open spec fn scan_single(src: Seq<char>, pos: int) -> Scan
    decreases src.len() - pos,
{
    if pos < 0 || pos >= src.len() {
        bad_eof(src, msg_eof_string())
    } else if src[pos] == '\'' {
        if pos + 1 < src.len() && src[pos + 1] == '\'' {
            scan_single(src, pos + 2).after(seq!['\''])
        } else {
            Scan::Closed { content: seq![], next: pos + 1 }
        }
    } else {
        scan_single(src, pos + 1).after(seq![src[pos]])
    }
}

/// A double-quoted string ends inside the source; what is wrong with a
/// malformed one lies inside the source too.
pub proof fn lemma_scan_double_bounds(src: Seq<char>, pos: int)
    requires
        0 <= pos <= src.len(),
    ensures
        pos <= scan_double(src, pos).next() <= src.len(),
        scan_double(src, pos) is Closed ==> pos < scan_double(src, pos).next(),
        scan_double(src, pos) matches Scan::Failed { at, width, .. } ==> pos <= at <= src.len()
            && 1 <= width <= 6,
    decreases src.len() - pos,
{
    if pos < src.len() {
        let c = src[pos];
        if c == '"' {
        } else if c == '\\' {
            lemma_escape_bounds(src, pos + 1);
            if pos + 1 < src.len() && src[pos + 1] == 'u' && pos + 2 < src.len() {
                lemma_hex_run_end_bounds(src, pos + 3, 6);
            }
            match escape_at(src, pos + 1) {
                Scan::Closed { content, next } => {
                    lemma_scan_double_bounds(src, next);
                },
                _ => {},
            }
        } else if c == '\r' || c == '\n' {
        } else {
            lemma_scan_double_bounds(src, pos + 1);
        }
    }
}

/// A single-quoted string ends inside the source, and the only thing that
/// can be wrong with one is that the source ends.
pub proof fn lemma_scan_single_bounds(src: Seq<char>, pos: int)
    requires
        0 <= pos <= src.len(),
    ensures
        pos <= scan_single(src, pos).next() <= src.len(),
        scan_single(src, pos) is Closed ==> pos < scan_single(src, pos).next(),
        scan_single(src, pos) matches Scan::Failed { at, width, .. } ==> at == src.len() && width
            == 1,
    decreases src.len() - pos,
{
    if pos < src.len() {
        if src[pos] == '\'' {
            if pos + 1 < src.len() && src[pos + 1] == '\'' {
                lemma_scan_single_bounds(src, pos + 2);
            }
        } else {
            lemma_scan_single_bounds(src, pos + 1);
        }
    }
}

// ---------------------------------------------------------------------------
// The token stream

/// What the lexeme just before a position was, as far as the next one
/// depends on it.
pub enum Prev {
    Other,
    Numeral,
    Suffix,
}

/// The item for the digits in `src[start..end]`: their value, or an error
/// when it does not fit in 64 bits.
pub open spec fn numeral_item(src: Seq<char>, start: int, end: int) -> Item {
    let digits = src.subrange(start, end);
    if digits_value(digits, 10) <= u64::MAX {
        Ok(Lexeme::Numeral(digits_value(digits, 10) as u64))
    } else {
        Err(locate(src, ErrorKind::IntParseError, msg_number(digits), start, end - start))
    }
}

/// The item for a string literal that was read as `scan`.
pub open spec fn text_item(src: Seq<char>, scan: Scan, format: bool) -> Item {
    match scan {
        Scan::Closed { content, .. } => Ok(Lexeme::Text { content, format }),
        Scan::Failed { kind, reason, at, width, .. } => Err(locate(src, kind, reason, at, width)),
    }
}

/// One lexeme: its item, the index after its text, and what the next lexeme
/// learns of it.
pub struct Step {
    pub item: Item,
    pub next: int,
    pub prev: Prev,
}

/// The lexeme of a punctuation character or line break at `pos`, and the
/// index after it.
pub open spec fn mark_at(src: Seq<char>, pos: int) -> Option<(Lexeme, int)> {
    let c = src[pos];
    if c == '.' {
        Some((Lexeme::Dot, pos + 1))
    } else if EqualityType::is_indicator(c) {
        Some((Lexeme::EqualitySwitch(EqualityType::of_char(c)), pos + 1))
    } else if c == '{' {
        Some((Lexeme::Block(BlockType::Open), pos + 1))
    } else if c == '}' {
        Some((Lexeme::Block(BlockType::Close), pos + 1))
    } else if c == '\r' && pos + 1 < src.len() && src[pos + 1] == '\n' {
        Some((Lexeme::NewLine, pos + 2))
    } else if c == '\r' || c == '\n' {
        Some((Lexeme::NewLine, pos + 1))
    } else {
        None
    }
}

/// The lexeme that starts at `pos`, a valid index, when the one before it was
/// of kind `prev`. Every token is the longest that its rule allows, and an
/// error takes the place of the text that caused it.
///
/// A letter opens a suffix right after a numeral and a statement elsewhere; a
/// digit opens a numeral, but is an error right after a suffix; a quote opens
/// a string literal; punctuation and line breaks are tokens of their own;
/// white space forms one spacer; any other character is an error.
pub open spec fn lexeme_at(src: Seq<char>, pos: int, prev: Prev) -> Step {
    let c = src[pos];
    if is_letter(c) {
        if prev is Numeral {
            let end = run_end(src, pos + 1, Class::Letter);
            Step { item: Ok(Lexeme::Suffix(src.subrange(pos, end))), next: end, prev: Prev::Suffix }
        } else {
            let end = run_end(src, pos + 1, Class::Alnum);
            Step {
                item: Ok(Lexeme::Statement(src.subrange(pos, end))),
                next: end,
                prev: Prev::Other,
            }
        }
    } else if is_digit(c) {
        if prev is Suffix {
            Step {
                item: Err(
                    locate(src, ErrorKind::UnexpectedCharacter(c), msg_suffix_digit(), pos, 1),
                ),
                next: pos + 1,
                prev: Prev::Other,
            }
        } else {
            let end = run_end(src, pos + 1, Class::Digit);
            Step { item: numeral_item(src, pos, end), next: end, prev: Prev::Numeral }
        }
    } else if c == '"' {
        let scan = scan_double(src, pos + 1);
        Step { item: text_item(src, scan, true), next: scan.next(), prev: Prev::Other }
    } else if c == '\'' {
        let scan = scan_single(src, pos + 1);
        Step { item: text_item(src, scan, false), next: scan.next(), prev: Prev::Other }
    } else if mark_at(src, pos) is Some {
        Step {
            item: Ok(mark_at(src, pos).unwrap().0),
            next: mark_at(src, pos).unwrap().1,
            prev: Prev::Other,
        }
    } else if is_space(c) {
        Step {
            item: Ok(Lexeme::Spacer),
            next: run_end(src, pos + 1, Class::Space),
            prev: Prev::Other,
        }
    } else {
        Step {
            item: Err(locate(src, ErrorKind::UnexpectedCharacter(c), msg_unexpected(c), pos, 1)),
            next: pos + 1,
            prev: Prev::Other,
        }
    }
}

/// Every lexeme takes at least one character and ends inside the source.
pub proof fn lemma_lexeme_advances(src: Seq<char>, pos: int, prev: Prev)
    requires
        0 <= pos < src.len(),
    ensures
        pos < lexeme_at(src, pos, prev).next <= src.len(),
{
    lemma_run_end_bounds(src, pos + 1, Class::Letter);
    lemma_run_end_bounds(src, pos + 1, Class::Alnum);
    lemma_run_end_bounds(src, pos + 1, Class::Digit);
    lemma_run_end_bounds(src, pos + 1, Class::Space);
    lemma_scan_double_bounds(src, pos + 1);
    lemma_scan_single_bounds(src, pos + 1);
}

/// The items that the source denotes from index `pos` on, given the kind of
/// the lexeme that ends at `pos`: lexeme after lexeme, and `Eof` at the end.
pub open spec fn lex_from(src: Seq<char>, pos: int, prev: Prev) -> Seq<Item>
    decreases src.len() - pos,
{
    if pos < 0 || pos >= src.len() {
        seq![Ok(Lexeme::Eof)]
    } else {
        let step = lexeme_at(src, pos, prev);
        proof {
            lemma_lexeme_advances(src, pos, prev);
        }
        seq![step.item] + lex_from(src, step.next, step.prev)
    }
}

/// The items that a whole source text denotes.
pub open spec fn lex(src: Seq<char>) -> Seq<Item> {
    lex_from(src, 0, Prev::Other)
}

} // verus!
