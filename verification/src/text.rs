//! Small helpers on strings and characters shared by the other modules.

use unicode_normalization::UnicodeNormalization;
use vstd::prelude::*;
use vstd::utf8::{
    decode_utf8, encode_scalar, encode_utf8, is_ascii_chars, is_ascii_chars_encode_utf8,
    is_char_boundary, is_char_boundary_iff_not_is_continuation_byte, valid_utf8,
};

verus! {

/// Returns its argument unchanged.
pub fn identity<T>(t: T) -> (r: T)
    ensures
        r == t,
{
    t
}

/// The characters of `s`, in order.
pub fn to_chars(s: &str) -> (v: Vec<char>)
    ensures
        v@ == s@,
{
    let mut v: Vec<char> = Vec::new();
    for c in it: s.chars()
        invariant
            v@ == it.seq().take(it.index()),
    {
        v.push(c);
    }
    v
}

/// Appends one character to a string, by `String::push` of the standard
/// library: the text afterwards is the text before followed by `c`.
#[verifier::external_body]
pub(crate) fn push_char(s: &mut String, c: char)
    ensures
        final(s)@ == old(s)@.push(c),
{
    s.push(c)
}

/// The character with the given code point, by `char::from_u32` of the
/// standard library: there is one exactly when the code is at most `0x10FFFF`
/// and no surrogate, and it is the character with that code.
#[verifier::external_body]
pub(crate) fn char_from_code(code: u32) -> (r: Option<char>)
    ensures
        (code <= 0xD7FF || (0xE000 <= code && code <= 0x10FFFF)) ==> r == Some(code as char),
        !(code <= 0xD7FF || (0xE000 <= code && code <= 0x10FFFF)) ==> r is None,
{
    char::from_u32(code)
}

/// The canonical composition (Unicode Normalization Form C) of a text.
pub uninterp spec fn nfc_of(text: Seq<char>) -> Seq<char>;

/// Normalisation Form C of `s`, by `UnicodeNormalization::nfc` of the
/// `unicode-normalization` crate.
#[verifier::external_body]
pub(crate) fn nfc_string(s: &str) -> (r: String)
    ensures
        r@ == nfc_of(s@),
{
    s.nfc().collect::<String>()
}

/// `s` in Unicode Normalization Form C, the form in which patterns are
/// registered.
pub fn normalize_str(s: &str) -> (r: String)
    ensures
        r@ == nfc_of(s@),
{
    nfc_string(s)
}

/// The text that the bytes encode, by `String::from_utf8` of the standard
/// library: there is one exactly when the bytes are valid UTF-8, and it is
/// their decoding.
#[verifier::external_body]
pub(crate) fn string_from_utf8(bytes: Vec<u8>) -> (r: Option<String>)
    ensures
        (r is Some) == valid_utf8(bytes@),
        r matches Some(s) ==> s@ == decode_utf8(bytes@),
{
    String::from_utf8(bytes).ok()
}

/// The ASCII bytes `bytes[start..end]` as a string.
pub fn ascii_string(bytes: &[u8], start: usize, end: usize) -> (s: String)
    requires
        start <= end <= bytes@.len(),
        forall|i: int| start <= i < end ==> #[trigger] bytes@[i] < 0x80,
    ensures
        encode_utf8(s@) == bytes@.subrange(start as int, end as int),
{
    let mut s = String::new();
    let mut i: usize = start;
    while i < end
        invariant
            start <= i <= end <= bytes@.len(),
            forall|i: int| start <= i < end ==> #[trigger] bytes@[i] < 0x80,
            s@.len() == i - start,
            forall|j: int| 0 <= j < s@.len() ==> #[trigger] s@[j] == bytes@[start + j] as char,
        decreases end - i,
    {
        let b: u8 = bytes[i];
        push_char(&mut s, b as char);
        i = i + 1;
    }
    proof {
        assert(is_ascii_chars(s@)) by {
            assert forall|j: int| 0 <= j < s@.len() implies '\0' <= #[trigger] s@[j] <= '\u{7f}' by {
                assert(s@[j] == bytes@[start + j] as char);
                assert(bytes@[start + j] < 0x80);
            }
        }
        is_ascii_chars_encode_utf8(s@);
        assert(encode_utf8(s@) =~= bytes@.subrange(start as int, end as int));
    }
    s
}

/// The characters `v[start..end]` as a string.
pub fn substring(v: &Vec<char>, start: usize, end: usize) -> (s: String)
    requires
        start <= end <= v.len(),
    ensures
        s@ == v@.subrange(start as int, end as int),
{
    let mut s = String::new();
    let mut i: usize = start;
    while i < end
        invariant
            start <= i <= end <= v.len(),
            s@ == v@.subrange(start as int, i as int),
        decreases end - i,
    {
        push_char(&mut s, v[i]);
        i = i + 1;
        assert(v@.subrange(start as int, i as int) =~= v@.subrange(start as int, i - 1).push(
            v@[i - 1],
        ));
    }
    s
}

/// Number of bytes that the UTF-8 encoding of `c` takes.
pub fn char_width(c: char) -> (w: usize)
    ensures
        w == encode_scalar(c as u32).len(),
        1 <= w <= 4,
{
    let code: u32 = c as u32;
    if code <= 0x7F {
        1
    } else if code <= 0x7FF {
        2
    } else if code <= 0xFFFF {
        3
    } else {
        4
    }
}

/// Encoding distributes over appending one character.
pub proof fn lemma_encode_push(s: Seq<char>, c: char)
    ensures
        encode_utf8(s.push(c)) == encode_utf8(s) + encode_scalar(c as u32),
    decreases s.len(),
{
    if s.len() == 0 {
        assert(s.push(c).drop_first() =~= s);
        assert(encode_utf8(s.push(c)) =~= encode_scalar(c as u32) + encode_utf8(s));
        assert(encode_utf8(s) =~= Seq::<u8>::empty());
        assert(encode_utf8(s.push(c)) =~= encode_utf8(s) + encode_scalar(c as u32));
    } else {
        lemma_encode_push(s.drop_first(), c);
        assert(s.push(c).drop_first() =~= s.drop_first().push(c));
        assert(s.push(c)[0] == s[0]);
        assert(encode_utf8(s.push(c)) =~= encode_utf8(s) + encode_scalar(c as u32));
    }
}

/// Encoding distributes over concatenation.
pub proof fn lemma_encode_concat(a: Seq<char>, b: Seq<char>)
    ensures
        encode_utf8(a + b) == encode_utf8(a) + encode_utf8(b),
    decreases b.len(),
{
    if b.len() == 0 {
        assert(a + b =~= a);
        assert(encode_utf8(a) + encode_utf8(b) =~= encode_utf8(a));
    } else {
        lemma_encode_concat(a, b.drop_last());
        lemma_encode_push(a + b.drop_last(), b.last());
        lemma_encode_push(b.drop_last(), b.last());
        assert((a + b.drop_last()).push(b.last()) =~= a + b);
        assert(b.drop_last().push(b.last()) =~= b);
        assert(encode_utf8(a + b) =~= encode_utf8(a) + encode_utf8(b));
    }
}

/// Before a trailing ASCII byte a character ends.
pub proof fn lemma_last_boundary(bytes: Seq<u8>)
    requires
        valid_utf8(bytes),
        bytes.len() >= 1,
        bytes[bytes.len() - 1] < 0x80,
    ensures
        is_char_boundary(bytes, bytes.len() - 1),
{
    is_char_boundary_iff_not_is_continuation_byte(bytes, bytes.len() - 1);
}

/// The decimal digit of a value below ten.
pub open spec fn decimal_digit(d: nat) -> char {
    ((0x30 + d) as u32) as char
}

/// A number in decimal notation, without leading zeros.
pub open spec fn decimal(n: nat) -> Seq<char>
    decreases n,
{
    if n < 10 {
        seq![decimal_digit(n)]
    } else {
        decimal(n / 10).push(decimal_digit(n % 10))
    }
}

/// Appends `n` in decimal notation to `out`.
pub fn push_decimal(out: &mut String, n: u64)
    ensures
        final(out)@ == old(out)@ + decimal(n as nat),
    decreases n,
{
    if n >= 10 {
        push_decimal(out, n / 10);
    }
    let c: char = (0x30 + (n % 10) as u8) as char;
    assert(c == decimal_digit((n % 10) as nat));
    push_char(out, c);
    assert(out@ =~= old(out)@ + decimal(n as nat));
}

/// `c` repeated `n` times.
pub open spec fn repeated(c: char, n: nat) -> Seq<char> {
    Seq::new(n, |i: int| c)
}

/// Appends `c` to `out`, `n` times.
pub fn push_repeated(out: &mut String, c: char, n: usize)
    ensures
        final(out)@ == old(out)@ + repeated(c, n as nat),
{
    let mut i: usize = 0;
    assert(out@ =~= old(out)@ + repeated(c, 0));
    while i < n
        invariant
            i <= n,
            out@ == old(out)@ + repeated(c, i as nat),
        decreases n - i,
    {
        push_char(out, c);
        i = i + 1;
        assert(out@ =~= old(out)@ + repeated(c, i as nat));
    }
}

} // verus!
