//! What holds of the token stream of every source text.

use super::grammar::{
    bad_eof, escape_at, hex_run_end, in_class, lemma_hex_run_end_bounds, lemma_scan_double_bounds,
    lemma_scan_single_bounds, is_digit, is_letter, is_space, lemma_escape_bounds,
    lemma_lexeme_advances, lemma_run_end_bounds, lex, lex_from, lexeme_at, mark_at, msg_eof_string,
    msg_newline, msg_suffix_digit, run_end, scan_double, scan_single, text_item, Class, Prev, Scan,
};
use super::token::{ErrorKind, Fault, Item, Lexeme};
use super::tokenizer::Tokenizer;
use vstd::prelude::*;

verus! {

/// A token is well typed: a statement is a letter followed by letters and
/// digits, a suffix is one letter or more.
pub open spec fn well_typed(l: Lexeme) -> bool {
    match l {
        Lexeme::Statement(s) => s.len() >= 1 && is_letter(s[0]) && forall|i: int|
            0 <= i < s.len() ==> is_letter(#[trigger] s[i]) || is_digit(s[i]),
        Lexeme::Suffix(s) => s.len() >= 1 && forall|i: int|
            0 <= i < s.len() ==> is_letter(#[trigger] s[i]),
        _ => true,
    }
}

/// A character that starts no token: no letter, digit, quote, punctuation,
/// line break or white space.
pub open spec fn is_foreign(src: Seq<char>, k: int) -> bool {
    &&& 0 <= k < src.len()
    &&& !is_letter(src[k])
    &&& !is_digit(src[k])
    &&& src[k] != '"'
    &&& src[k] != '\''
    &&& mark_at(src, k) is None
    &&& !is_space(src[k])
}

/// No quote stands in `src[from..to]`.
pub open spec fn no_quote(src: Seq<char>, from: int, to: int) -> bool {
    forall|i: int| from <= i < to ==> #[trigger] src[i] != '"' && src[i] != '\''
}

/// A lexeme is a well-typed token or an error, and never `Eof`.
pub proof fn lemma_lexeme_typed(src: Seq<char>, pos: int, prev: Prev)
    requires
        0 <= pos < src.len(),
    ensures
        lexeme_at(src, pos, prev).item matches Ok(l) ==> well_typed(l) && !(l is Eof),
{
    lemma_run_end_bounds(src, pos + 1, Class::Letter);
    lemma_run_end_bounds(src, pos + 1, Class::Alnum);
    let c = src[pos];
    if is_letter(c) {
        if prev is Numeral {
            let end = run_end(src, pos + 1, Class::Letter);
            let s = src.subrange(pos, end);
            assert forall|i: int| 0 <= i < s.len() implies is_letter(#[trigger] s[i]) by {
                if i > 0 {
                    assert(in_class(Class::Letter, src[pos + i]));
                }
            }
        } else {
            let end = run_end(src, pos + 1, Class::Alnum);
            let s = src.subrange(pos, end);
            assert forall|i: int| 0 <= i < s.len() implies is_letter(#[trigger] s[i]) || is_digit(
                s[i],
            ) by {
                if i > 0 {
                    assert(in_class(Class::Alnum, src[pos + i]));
                }
            }
        }
    }
}

/// Every token of the stream from `pos` on is well typed, `Eof` is its last
/// item, and no other item is `Eof`.
pub proof fn lemma_stream_typed(src: Seq<char>, pos: int, prev: Prev)
    requires
        0 <= pos,
    ensures
        lex_from(src, pos, prev).len() >= 1,
        lex_from(src, pos, prev).last() == Ok::<Lexeme, Fault>(Lexeme::Eof),
        forall|i: int|
            0 <= i < lex_from(src, pos, prev).len() ==> (#[trigger] lex_from(src, pos, prev)[i]
                matches Ok(l) ==> well_typed(l) && (l is Eof ==> i == lex_from(src, pos, prev).len()
                - 1)),
    decreases src.len() - pos,
{
    if pos < src.len() {
        let step = lexeme_at(src, pos, prev);
        lemma_lexeme_advances(src, pos, prev);
        lemma_lexeme_typed(src, pos, prev);
        lemma_stream_typed(src, step.next, step.prev);
        let tail = lex_from(src, step.next, step.prev);
        let all = lex_from(src, pos, prev);
        assert(all =~= seq![step.item] + tail);
        assert forall|i: int| 0 <= i < all.len() implies (#[trigger] all[i] matches Ok(l)
            ==> well_typed(l) && (l is Eof ==> i == all.len() - 1)) by {
            if i > 0 {
                assert(all[i] == tail[i - 1]);
            }
        }
    }
}

/// A run of a class stops before a character that is not of the class.
pub proof fn lemma_run_stops(src: Seq<char>, pos: int, cl: Class, k: int)
    requires
        0 <= pos <= k < src.len(),
        !in_class(cl, src[k]),
    ensures
        run_end(src, pos, cl) <= k,
    decreases k - pos,
{
    if pos < k && in_class(cl, src[pos]) {
        lemma_run_stops(src, pos + 1, cl, k);
    }
}

/// A foreign character that no string literal hides is reported.
pub proof fn lemma_foreign_reported(src: Seq<char>, pos: int, prev: Prev, k: int)
    requires
        0 <= pos <= k,
        is_foreign(src, k),
        no_quote(src, pos, k),
    ensures
        exists|i: int|
            0 <= i < lex_from(src, pos, prev).len() && (#[trigger] lex_from(src, pos, prev)[i])
                is Err && lex_from(src, pos, prev)[i]->Err_0.kind == ErrorKind::UnexpectedCharacter(
                src[k],
            ),
    decreases k - pos,
{
    let all = lex_from(src, pos, prev);
    let step = lexeme_at(src, pos, prev);
    lemma_lexeme_advances(src, pos, prev);
    let tail = lex_from(src, step.next, step.prev);
    assert(all =~= seq![step.item] + tail);
    if pos == k {
        assert(all[0] is Err && all[0]->Err_0.kind == ErrorKind::UnexpectedCharacter(src[k]));
    } else {
        assert(src[pos] != '"' && src[pos] != '\'');
        lemma_run_stops(src, pos + 1, Class::Letter, k);
        lemma_run_stops(src, pos + 1, Class::Alnum, k);
        lemma_run_stops(src, pos + 1, Class::Digit, k);
        lemma_run_stops(src, pos + 1, Class::Space, k);
        assert(step.next <= k);
        assert forall|i: int| step.next <= i < k implies #[trigger] src[i] != '"' && src[i]
            != '\'' by {}
        lemma_foreign_reported(src, step.next, step.prev, k);
        let i = choose|i: int|
            0 <= i < tail.len() && (#[trigger] tail[i]) is Err && tail[i]->Err_0.kind
                == ErrorKind::UnexpectedCharacter(src[k]);
        assert(all[i + 1] == tail[i]);
    }
}

/// Every `Ok` item of a token stream is a well-typed token, whatever errors
/// stand around it; the stream ends with `Eof`, and `Eof` stands nowhere
/// else.
pub proof fn law_tokens_well_typed(src: Seq<char>)
    ensures
        lex(src).len() >= 1,
        lex(src).last() == Ok::<Lexeme, Fault>(Lexeme::Eof),
        forall|i: int|
            0 <= i < lex(src).len() ==> (#[trigger] lex(src)[i] matches Ok(l) ==> well_typed(l)
                && (l is Eof ==> i == lex(src).len() - 1)),
{
    lemma_stream_typed(src, 0, Prev::Other);
}

/// A source with a character that starts no token, and with no quote before
/// it, is malformed: its stream holds an error for that character.
pub proof fn law_malformed_source_yields_error(src: Seq<char>, k: int)
    requires
        is_foreign(src, k),
        no_quote(src, 0, k),
    ensures
        exists|i: int|
            0 <= i < lex(src).len() && (#[trigger] lex(src)[i]) is Err && lex(
                src,
            )[i]->Err_0.kind == ErrorKind::UnexpectedCharacter(src[k]),
{
    lemma_foreign_reported(src, 0, Prev::Other, k);
    let all = lex_from(src, 0, Prev::Other);
    let i = choose|i: int|
        0 <= i < all.len() && (#[trigger] all[i]) is Err && all[i]->Err_0.kind
            == ErrorKind::UnexpectedCharacter(src[k]);
    assert(lex(src)[i] == all[i]);
}

/// Lazy and eager collection agree: the item that one call of `next` hands
/// out, followed by everything that is collected from the tokenizer after
/// that call, is everything that would have been collected before it.
pub proof fn law_lazy_equals_eager(before: Tokenizer, handed: Item, after: Tokenizer)
    requires
        before.remaining().len() > 0,
        handed == before.remaining()[0],
        after.remaining() == before.remaining().drop_first(),
    ensures
        before.remaining() == seq![handed] + after.remaining(),
{
    assert(before.remaining() =~= seq![handed] + after.remaining());
}

// ---------------------------------------------------------------------------
// Malformed string literals

/// The characters of `src[from..to]` stand for themselves in a double-quoted
/// string: none is a double quote, a backslash or a line break.
pub open spec fn is_plain(src: Seq<char>, from: int, to: int) -> bool {
    forall|i: int|
        from <= i < to ==> #[trigger] src[i] != '"' && src[i] != '\\' && src[i] != '\r' && src[i]
            != '\n'
}

/// No double quote stands at or after `from`.
pub open spec fn never_closed(src: Seq<char>, from: int, quote: char) -> bool {
    forall|i: int| from <= i < src.len() ==> #[trigger] src[i] != quote
}

/// A string literal whose opening quote no quote precedes is read as one
/// lexeme.
pub proof fn lemma_quote_reached(src: Seq<char>, pos: int, prev: Prev, k: int)
    requires
        0 <= pos <= k < src.len(),
        no_quote(src, pos, k),
        src[k] == '"' || src[k] == '\'',
    ensures
        exists|i: int|
            0 <= i < lex_from(src, pos, prev).len() && #[trigger] lex_from(src, pos, prev)[i]
                == lexeme_at(src, k, Prev::Other).item,
    decreases k - pos,
{
    let all = lex_from(src, pos, prev);
    let step = lexeme_at(src, pos, prev);
    lemma_lexeme_advances(src, pos, prev);
    let tail = lex_from(src, step.next, step.prev);
    assert(all =~= seq![step.item] + tail);
    if pos == k {
        assert(all[0] == lexeme_at(src, k, Prev::Other).item);
    } else {
        assert(src[pos] != '"' && src[pos] != '\'');
        lemma_run_stops(src, pos + 1, Class::Letter, k);
        lemma_run_stops(src, pos + 1, Class::Alnum, k);
        lemma_run_stops(src, pos + 1, Class::Digit, k);
        lemma_run_stops(src, pos + 1, Class::Space, k);
        assert(step.next <= k);
        assert forall|i: int| step.next <= i < k implies #[trigger] src[i] != '"' && src[i]
            != '\'' by {}
        lemma_quote_reached(src, step.next, step.prev, k);
        let i = choose|i: int|
            0 <= i < tail.len() && #[trigger] tail[i] == lexeme_at(src, k, Prev::Other).item;
        assert(all[i + 1] == tail[i]);
    }
}

/// Characters that stand for themselves do not change how a double-quoted
/// string fails.
pub proof fn lemma_plain_skipped(src: Seq<char>, pos: int, n: int)
    requires
        0 <= pos <= n <= src.len(),
        is_plain(src, pos, n),
        scan_double(src, n) is Failed,
    ensures
        scan_double(src, pos) == scan_double(src, n),
    decreases n - pos,
{
    if pos < n {
        assert(src[pos] != '"' && src[pos] != '\\' && src[pos] != '\r' && src[pos] != '\n');
        assert(is_plain(src, pos + 1, n));
        lemma_plain_skipped(src, pos + 1, n);
    }
}

/// A double-quoted string that no double quote closes fails.
pub proof fn lemma_double_open(src: Seq<char>, pos: int)
    requires
        0 <= pos <= src.len(),
        never_closed(src, pos, '"'),
    ensures
        scan_double(src, pos) is Failed,
    decreases src.len() - pos,
{
    if pos < src.len() {
        let c = src[pos];
        assert(c != '"');
        if c == '\\' {
            lemma_escape_bounds(src, pos + 1);
            match escape_at(src, pos + 1) {
                Scan::Closed { content, next } => {
                    lemma_double_open(src, next);
                },
                _ => {},
            }
        } else if c == '\r' || c == '\n' {
        } else {
            lemma_double_open(src, pos + 1);
        }
    }
}

/// A single-quoted string that no single quote closes fails because the
/// source ends.
pub proof fn lemma_single_open(src: Seq<char>, pos: int)
    requires
        0 <= pos <= src.len(),
        never_closed(src, pos, '\''),
    ensures
        scan_single(src, pos) == bad_eof(src, msg_eof_string()),
    decreases src.len() - pos,
{
    if pos < src.len() {
        assert(src[pos] != '\'');
        lemma_single_open(src, pos + 1);
    }
}

/// The item of the string literal that opens at `k`, the first quote of the
/// source, stands in the stream.
pub proof fn lemma_first_literal(src: Seq<char>, k: int)
    requires
        0 <= k < src.len(),
        no_quote(src, 0, k),
        src[k] == '"' || src[k] == '\'',
    ensures
        exists|i: int|
            0 <= i < lex(src).len() && #[trigger] lex(src)[i] == text_item(
                src,
                if src[k] == '"' {
                    scan_double(src, k + 1)
                } else {
                    scan_single(src, k + 1)
                },
                src[k] == '"',
            ),
{
    lemma_quote_reached(src, 0, Prev::Other, k);
    let all = lex_from(src, 0, Prev::Other);
    let item = lexeme_at(src, k, Prev::Other).item;
    let i = choose|i: int| 0 <= i < all.len() && #[trigger] all[i] == item;
    assert(lex(src)[i] == item);
}

/// A string literal that is never closed is malformed: where no quote
/// stands before the opening quote at `k` and none of its kind after it,
/// the stream holds an error. For a single-quoted string, and for a
/// double-quoted one that holds no backslash and no line break, the error
/// says that the source ended inside the string.
pub proof fn law_unterminated_string_yields_error(src: Seq<char>, k: int)
    requires
        0 <= k < src.len(),
        no_quote(src, 0, k),
        src[k] == '"' || src[k] == '\'',
        never_closed(src, k + 1, src[k]),
    ensures
        exists|i: int| 0 <= i < lex(src).len() && (#[trigger] lex(src)[i]) is Err,
        src[k] == '\'' || is_plain(src, k + 1, src.len() as int) ==> exists|i: int|
            0 <= i < lex(src).len() && (#[trigger] lex(src)[i]) is Err && lex(src)[i]->Err_0.kind
                == ErrorKind::EarlyEof && lex(src)[i]->Err_0.reason == msg_eof_string(),
{
    lemma_first_literal(src, k);
    let scan = if src[k] == '"' {
        scan_double(src, k + 1)
    } else {
        scan_single(src, k + 1)
    };
    let i = choose|i: int|
        0 <= i < lex(src).len() && #[trigger] lex(src)[i] == text_item(src, scan, src[k] == '"');
    if src[k] == '"' {
        lemma_double_open(src, k + 1);
        if is_plain(src, k + 1, src.len() as int) {
            lemma_plain_skipped(src, k + 1, src.len() as int);
        }
    } else {
        lemma_single_open(src, k + 1);
    }
    assert(lex(src)[i] is Err);
}

/// A line break inside a double-quoted string is malformed: where the
/// string opens at `k`, the first quote of the source, and the characters up
/// to the line break at `n` stand for themselves, the stream holds an error
/// for the line break.
pub proof fn law_line_break_in_string_yields_error(src: Seq<char>, k: int, n: int)
    requires
        0 <= k < n < src.len(),
        no_quote(src, 0, k),
        src[k] == '"',
        is_plain(src, k + 1, n),
        src[n] == '\r' || src[n] == '\n',
    ensures
        exists|i: int|
            0 <= i < lex(src).len() && (#[trigger] lex(src)[i]) is Err && lex(src)[i]->Err_0.kind
                == ErrorKind::UnexpectedCharacter(src[n]) && lex(src)[i]->Err_0.reason
                == msg_newline(),
{
    lemma_first_literal(src, k);
    lemma_plain_skipped(src, k + 1, n);
    let i = choose|i: int|
        0 <= i < lex(src).len() && #[trigger] lex(src)[i] == text_item(
            src,
            scan_double(src, k + 1),
            true,
        );
    assert(lex(src)[i] is Err);
}

/// A malformed escape inside a double-quoted string is malformed: where the
/// string opens at `k`, the first quote of the source, and the characters up
/// to the backslash at `n` stand for themselves, the stream holds the error
/// of the escape that follows the backslash.
pub proof fn law_bad_escape_yields_error(src: Seq<char>, k: int, n: int)
    requires
        0 <= k < n < src.len(),
        no_quote(src, 0, k),
        src[k] == '"',
        is_plain(src, k + 1, n),
        src[n] == '\\',
        escape_at(src, n + 1) is Failed,
    ensures
        exists|i: int|
            0 <= i < lex(src).len() && (#[trigger] lex(src)[i]) is Err && lex(src)[i] == text_item(
                src,
                escape_at(src, n + 1),
                true,
            ),
{
    lemma_first_literal(src, k);
    assert(scan_double(src, n) == escape_at(src, n + 1));
    lemma_plain_skipped(src, k + 1, n);
    let i = choose|i: int|
        0 <= i < lex(src).len() && #[trigger] lex(src)[i] == text_item(
            src,
            scan_double(src, k + 1),
            true,
        );
    assert(lex(src)[i] is Err);
}

// ---------------------------------------------------------------------------
// Digits after a suffix

/// A run of a class that is followed by a character of another class ends
/// there.
pub proof fn lemma_run_exact(src: Seq<char>, pos: int, cl: Class, end: int)
    requires
        0 <= pos <= end < src.len(),
        forall|i: int| pos <= i < end ==> in_class(cl, #[trigger] src[i]),
        !in_class(cl, src[end]),
    ensures
        run_end(src, pos, cl) == end,
    decreases end - pos,
{
    if pos < end {
        assert(in_class(cl, src[pos]));
        lemma_run_exact(src, pos + 1, cl, end);
    }
}

/// The kind of the lexeme before index `a` when lexing from `pos` reaches
/// it.
pub open spec fn kind_before(pos: int, prev: Prev, a: int) -> Prev {
    if pos == a {
        prev
    } else {
        Prev::Other
    }
}

/// A digit that follows neither a letter nor a digit, with no quote before
/// it, starts a lexeme, and the lexeme before it is no suffix.
pub proof fn lemma_digits_reached(src: Seq<char>, pos: int, prev: Prev, a: int)
    requires
        0 <= pos <= a < src.len(),
        no_quote(src, pos, a),
        is_digit(src[a]),
        pos < a ==> !in_class(Class::Alnum, src[a - 1]),
    ensures
        exists|i: int|
            0 <= i < lex_from(src, pos, prev).len() && #[trigger] lex_from(src, pos, prev).skip(i)
                == lex_from(src, a, kind_before(pos, prev, a)),
    decreases a - pos,
{
    let all = lex_from(src, pos, prev);
    if pos == a {
        assert(all.skip(0) =~= all);
    } else {
        let step = lexeme_at(src, pos, prev);
        lemma_lexeme_advances(src, pos, prev);
        let tail = lex_from(src, step.next, step.prev);
        assert(all =~= seq![step.item] + tail);
        assert(src[pos] != '"' && src[pos] != '\'');
        if pos < a - 1 {
            lemma_run_stops(src, pos + 1, Class::Letter, a - 1);
            lemma_run_stops(src, pos + 1, Class::Alnum, a - 1);
            lemma_run_stops(src, pos + 1, Class::Digit, a - 1);
        }
        lemma_run_stops(src, pos + 1, Class::Space, a);
        assert(step.next <= a);
        assert(step.next == a ==> step.prev is Other);
        assert forall|i: int| step.next <= i < a implies #[trigger] src[i] != '"' && src[i]
            != '\'' by {}
        lemma_digits_reached(src, step.next, step.prev, a);
        let i = choose|i: int|
            0 <= i < tail.len() && #[trigger] tail.skip(i) == lex_from(
                src,
                a,
                kind_before(step.next, step.prev, a),
            );
        assert(all.skip(i + 1) =~= tail.skip(i));
    }
}

/// A digit after a suffix is malformed: where digits stand in
/// `src[a..b]`, after no letter, no digit and no quote, letters in
/// `src[b..c]`, and a digit at `c`, the stream holds an error for that
/// digit.
pub proof fn law_digit_after_suffix_yields_error(src: Seq<char>, a: int, b: int, c: int)
    requires
        0 <= a < b < c < src.len(),
        no_quote(src, 0, a),
        a > 0 ==> !is_letter(src[a - 1]) && !is_digit(src[a - 1]),
        forall|i: int| a <= i < b ==> is_digit(#[trigger] src[i]),
        forall|i: int| b <= i < c ==> is_letter(#[trigger] src[i]),
        is_digit(src[c]),
    ensures
        exists|i: int|
            0 <= i < lex(src).len() && (#[trigger] lex(src)[i]) is Err && lex(src)[i]->Err_0.kind
                == ErrorKind::UnexpectedCharacter(src[c]) && lex(src)[i]->Err_0.reason
                == msg_suffix_digit(),
{
    lemma_digits_reached(src, 0, Prev::Other, a);
    let all = lex(src);
    let i = choose|i: int|
        0 <= i < all.len() && #[trigger] all.skip(i) == lex_from(src, a, Prev::Other);
    let digits = lexeme_at(src, a, Prev::Other);
    assert(is_letter(src[b]));
    assert(is_digit(src[a]));
    assert forall|j: int| a + 1 <= j < b implies in_class(Class::Digit, #[trigger] src[j]) by {}
    lemma_run_exact(src, a + 1, Class::Digit, b);
    assert(digits.next == b && digits.prev is Numeral);
    let letters = lexeme_at(src, b, Prev::Numeral);
    assert forall|j: int| b + 1 <= j < c implies in_class(Class::Letter, #[trigger] src[j]) by {}
    lemma_run_exact(src, b + 1, Class::Letter, c);
    assert(letters.next == c && letters.prev is Suffix);
    let digit = lexeme_at(src, c, Prev::Suffix);
    let from_a = lex_from(src, a, Prev::Other);
    let from_b = lex_from(src, b, Prev::Numeral);
    let from_c = lex_from(src, c, Prev::Suffix);
    assert(from_a =~= seq![digits.item] + from_b);
    assert(from_b =~= seq![letters.item] + from_c);
    assert(from_c =~= seq![digit.item] + lex_from(src, digit.next, digit.prev));
    assert(from_a[2] == digit.item);
    assert(all.skip(i)[2] == all[i + 2]);
    assert(all[i + 2] is Err);
}

// ---------------------------------------------------------------------------
// The tokens before an error

/// The index in the source at which item `i` of the stream from `pos` on
/// starts.
pub open spec fn start_of(src: Seq<char>, pos: int, prev: Prev, i: int) -> int
    decreases i,
{
    if i <= 0 || pos < 0 || pos >= src.len() {
        pos
    } else {
        let step = lexeme_at(src, pos, prev);
        start_of(src, step.next, step.prev, i - 1)
    }
}

/// The index in the source at which item `i` of its stream starts.
pub open spec fn offset_of(src: Seq<char>, i: int) -> int {
    start_of(src, 0, Prev::Other, i)
}

/// A run that ends at or before `k` is the same run in the first `k`
/// characters.
pub proof fn lemma_run_local(src: Seq<char>, pos: int, cl: Class, k: int)
    requires
        0 <= pos <= k <= src.len(),
        run_end(src, pos, cl) <= k,
    ensures
        run_end(src.take(k), pos, cl) == run_end(src, pos, cl),
    decreases k - pos,
{
    lemma_run_end_bounds(src, pos, cl);
    if pos < k && in_class(cl, src[pos]) {
        lemma_run_end_bounds(src, pos + 1, cl);
        lemma_run_local(src, pos + 1, cl, k);
    }
}

/// A run of hex digits that ends at or before `k` is the same run in the
/// first `k` characters.
pub proof fn lemma_hex_run_local(src: Seq<char>, pos: int, limit: int, k: int)
    requires
        0 <= pos <= k <= src.len(),
        0 <= limit,
        hex_run_end(src, pos, limit) <= k,
    ensures
        hex_run_end(src.take(k), pos, limit) == hex_run_end(src, pos, limit),
    decreases limit,
{
    lemma_hex_run_end_bounds(src, pos, limit);
    if limit > 0 && pos < k && super::grammar::is_hex(src[pos]) {
        lemma_hex_run_end_bounds(src, pos + 1, limit - 1);
        lemma_hex_run_local(src, pos + 1, limit - 1, k);
    }
}

/// A well-formed escape that ends at or before `k` is the same escape in
/// the first `k` characters.
pub proof fn lemma_escape_local(src: Seq<char>, pos: int, k: int)
    requires
        0 <= pos <= k <= src.len(),
        escape_at(src, pos) is Closed,
        escape_at(src, pos).next() <= k,
    ensures
        escape_at(src.take(k), pos) == escape_at(src, pos),
{
    let cut = src.take(k);
    let c = src[pos];
    if c == 'x' {
        assert(cut.subrange(pos + 1, pos + 3) =~= src.subrange(pos + 1, pos + 3));
    } else if c == 'u' {
        lemma_hex_run_end_bounds(src, pos + 2, 6);
        let end = hex_run_end(src, pos + 2, 6);
        lemma_hex_run_local(src, pos + 2, 6, k);
        assert(cut.subrange(pos + 2, end) =~= src.subrange(pos + 2, end));
    }
}

/// A closed double-quoted string that ends at or before `k` is the same
/// string in the first `k` characters.
pub proof fn lemma_double_local(src: Seq<char>, pos: int, k: int)
    requires
        0 <= pos <= k <= src.len(),
        scan_double(src, pos) is Closed,
        scan_double(src, pos).next() <= k,
    ensures
        scan_double(src.take(k), pos) == scan_double(src, pos),
    decreases src.len() - pos,
{
    lemma_scan_double_bounds(src, pos);
    if pos < src.len() {
        let c = src[pos];
        if c == '"' {
        } else if c == '\\' {
            lemma_escape_bounds(src, pos + 1);
            match escape_at(src, pos + 1) {
                Scan::Closed { content, next } => {
                    lemma_scan_double_bounds(src, next);
                    lemma_escape_local(src, pos + 1, k);
                    lemma_double_local(src, next, k);
                },
                _ => {},
            }
        } else if c == '\r' || c == '\n' {
        } else {
            lemma_scan_double_bounds(src, pos + 1);
            lemma_double_local(src, pos + 1, k);
        }
    }
}

/// A closed single-quoted string that ends at or before `k` is the same
/// string in the first `k` characters.
pub proof fn lemma_single_local(src: Seq<char>, pos: int, k: int)
    requires
        0 <= pos <= k <= src.len(),
        scan_single(src, pos) is Closed,
        scan_single(src, pos).next() <= k,
    ensures
        scan_single(src.take(k), pos) == scan_single(src, pos),
    decreases src.len() - pos,
{
    lemma_scan_single_bounds(src, pos);
    if pos < src.len() {
        if src[pos] == '\'' {
            if pos + 1 < src.len() && src[pos + 1] == '\'' {
                lemma_scan_single_bounds(src, pos + 2);
                lemma_single_local(src, pos + 2, k);
            }
        } else {
            lemma_scan_single_bounds(src, pos + 1);
            lemma_single_local(src, pos + 1, k);
        }
    }
}

/// A token that ends at or before `k` is the same token in the first `k`
/// characters.
pub proof fn lemma_lexeme_local(src: Seq<char>, pos: int, prev: Prev, k: int)
    requires
        0 <= pos < src.len(),
        lexeme_at(src, pos, prev).item is Ok,
        lexeme_at(src, pos, prev).next <= k <= src.len(),
    ensures
        lexeme_at(src.take(k), pos, prev) == lexeme_at(src, pos, prev),
{
    let cut = src.take(k);
    let step = lexeme_at(src, pos, prev);
    lemma_lexeme_advances(src, pos, prev);
    let c = src[pos];
    assert(cut[pos] == c);
    if is_letter(c) {
        if prev is Numeral {
            lemma_run_local(src, pos + 1, Class::Letter, k);
        } else {
            lemma_run_local(src, pos + 1, Class::Alnum, k);
        }
        assert(cut.subrange(pos, step.next) =~= src.subrange(pos, step.next));
    } else if is_digit(c) {
        lemma_run_local(src, pos + 1, Class::Digit, k);
        assert(cut.subrange(pos, step.next) =~= src.subrange(pos, step.next));
    } else if c == '"' {
        lemma_double_local(src, pos + 1, k);
    } else if c == '\'' {
        lemma_single_local(src, pos + 1, k);
    } else if mark_at(src, pos) is Some {
    } else if is_space(c) {
        lemma_run_local(src, pos + 1, Class::Space, k);
    }
}

/// The items before item `i` of a stream that starts with `first`, and
/// `end` after them.
pub proof fn lemma_take_push(first: Item, tail: Seq<Item>, i: int, end: Item)
    requires
        1 <= i <= tail.len() + 1,
    ensures
        (seq![first] + tail).take(i).push(end) == seq![first] + tail.take(i - 1).push(end),
{
    assert((seq![first] + tail).take(i).push(end) =~= seq![first] + tail.take(i - 1).push(end));
}

/// The tokens from `pos` on before item `i`, where none of them is an
/// error, are the tokens of the text before that item.
pub proof fn lemma_prefix_stream(src: Seq<char>, pos: int, prev: Prev, i: int)
    requires
        0 <= pos <= src.len(),
        0 <= i < lex_from(src, pos, prev).len(),
        forall|j: int| 0 <= j < i ==> (#[trigger] lex_from(src, pos, prev)[j]) is Ok,
    ensures
        pos <= start_of(src, pos, prev, i) <= src.len(),
        lex_from(src.take(start_of(src, pos, prev, i)), pos, prev) == lex_from(src, pos, prev).take(
            i,
        ).push(Ok(Lexeme::Eof)),
    decreases i,
{
    let all = lex_from(src, pos, prev);
    let k = start_of(src, pos, prev, i);
    let end = Ok::<Lexeme, Fault>(Lexeme::Eof);
    if pos >= src.len() || i == 0 {
        assert(pos >= src.len() ==> all =~= seq![end]);
        assert(all.take(0).push(end) =~= seq![end]);
        assert(src.take(pos).len() == pos);
        assert(lex_from(src.take(pos), pos, prev) =~= seq![end]);
    } else {
        let step = lexeme_at(src, pos, prev);
        lemma_lexeme_advances(src, pos, prev);
        let tail = lex_from(src, step.next, step.prev);
        assert(all == seq![step.item] + tail);
        assert(all[0] == step.item);
        assert(step.item is Ok);
        assert forall|j: int| 0 <= j < i - 1 implies (#[trigger] tail[j]) is Ok by {
            assert(all[j + 1] == tail[j]);
        }
        assert(k == start_of(src, step.next, step.prev, i - 1));
        lemma_prefix_stream(src, step.next, step.prev, i - 1);
        lemma_lexeme_local(src, pos, prev, k);
        let cut = src.take(k);
        assert(lexeme_at(cut, pos, prev) == step);
        assert(lex_from(cut, pos, prev) == seq![step.item] + lex_from(cut, step.next, step.prev));
        lemma_take_push(step.item, tail, i, end);
    }
}

/// The tokens before the first error are those of the text before it: where
/// no item before item `i` is an error, the source up to the start of item
/// `i` denotes exactly these tokens, each with its payload, and `Eof`.
pub proof fn law_tokens_before_error(src: Seq<char>, i: int)
    requires
        0 <= i < lex(src).len(),
        forall|j: int| 0 <= j < i ==> (#[trigger] lex(src)[j]) is Ok,
    ensures
        0 <= offset_of(src, i) <= src.len(),
        lex(src.take(offset_of(src, i))) == lex(src).take(i).push(Ok(Lexeme::Eof)),
{
    lemma_prefix_stream(src, 0, Prev::Other, i);
}

/// The item that starts at a quote is the item of the string literal that
/// the quote opens.
pub proof fn lemma_literal_at(src: Seq<char>, pos: int, prev: Prev, i: int)
    requires
        0 <= pos <= src.len(),
        0 <= i < lex_from(src, pos, prev).len(),
        start_of(src, pos, prev, i) < src.len(),
        src[start_of(src, pos, prev, i)] == '"' || src[start_of(src, pos, prev, i)] == '\'',
    ensures
        lex_from(src, pos, prev)[i] == lexeme_at(
            src,
            start_of(src, pos, prev, i),
            Prev::Other,
        ).item,
    decreases i,
{
    let all = lex_from(src, pos, prev);
    if pos < src.len() {
        let step = lexeme_at(src, pos, prev);
        lemma_lexeme_advances(src, pos, prev);
        let tail = lex_from(src, step.next, step.prev);
        assert(all == seq![step.item] + tail);
        if i > 0 {
            assert(start_of(src, pos, prev, i) == start_of(src, step.next, step.prev, i - 1));
            lemma_literal_at(src, step.next, step.prev, i - 1);
            assert(all[i] == tail[i - 1]);
        } else {
            assert(all[0] == step.item);
        }
    }
}

/// A malformed string literal yields an error wherever it stands: where
/// item `i` of the stream starts at a quote and the literal that the quote
/// opens fails, item `i` is the error of that failure.
pub proof fn law_malformed_literal_yields_error(src: Seq<char>, i: int)
    requires
        0 <= i < lex(src).len(),
        0 <= offset_of(src, i) < src.len(),
        src[offset_of(src, i)] == '"' || src[offset_of(src, i)] == '\'',
        src[offset_of(src, i)] == '"' ==> scan_double(src, offset_of(src, i) + 1) is Failed,
        src[offset_of(src, i)] == '\'' ==> scan_single(src, offset_of(src, i) + 1) is Failed,
    ensures
        lex(src)[i] is Err,
        lex(src)[i] == text_item(
            src,
            if src[offset_of(src, i)] == '"' {
                scan_double(src, offset_of(src, i) + 1)
            } else {
                scan_single(src, offset_of(src, i) + 1)
            },
            src[offset_of(src, i)] == '"',
        ),
{
    lemma_literal_at(src, 0, Prev::Other, i);
}

} // verus!
