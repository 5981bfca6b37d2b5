//! The lexical layer: whitespace, literals, identifiers and timestamps.

use vstd::prelude::*;
use vstd::string::StringSliceAdditionalSpecFns;

use crate::encoding::{ascii_text, ascii_to_string, is_ascii_bytes, lemma_ascii_text};
use crate::util::new_timestamp;

verus! {

/// The small letter of an ASCII capital, and every other character as it is.
pub open spec fn lower_char(c: char) -> char {
    if 'A' <= c <= 'Z' {
        ((c as u32) + 0x20) as char
    } else {
        c
    }
}

/// The text with every ASCII capital replaced by its small letter.
pub open spec fn lower_text(text: Seq<char>) -> Seq<char> {
    Seq::new(text.len(), |i: int| lower_char(text[i]))
}

/// The bytes of the text in lower case: what the parsers scan.
pub open spec fn lowered(text: Seq<char>) -> Seq<u8> {
    vstd::utf8::encode_utf8(lower_text(text))
}

/// The small letter of the byte of an ASCII capital, and every other byte
/// as it is.
pub open spec fn lower_byte(b: u8) -> u8 {
    if 0x41 <= b <= 0x5a {
        (b + 0x20) as u8
    } else {
        b
    }
}

/// The bytes with every ASCII capital replaced by its small letter.
pub open spec fn lower_bytes(bytes: Seq<u8>) -> Seq<u8> {
    Seq::new(bytes.len(), |i: int| lower_byte(bytes[i]))
}

/// The bytes are ASCII and hold no capital `A` to `Z`.
pub open spec fn is_small(bytes: Seq<u8>) -> bool {
    forall|i: int| 0 <= i < bytes.len() ==> (#[trigger] bytes[i]) < 128 && !(0x41 <= bytes[i] <= 0x5a)
}

/// Of an ASCII statement the parsers scan the bytes with every capital
/// replaced by its small letter.
pub proof fn lemma_lowered_ascii(bytes: Seq<u8>)
    requires
        is_ascii_bytes(bytes),
    ensures
        lower_text(ascii_text(bytes)) == ascii_text(lower_bytes(bytes)),
        lowered(ascii_text(bytes)) == lower_bytes(bytes),
{
    let text = ascii_text(bytes);
    let small = lower_bytes(bytes);
    assert(lower_text(text) =~= ascii_text(small)) by {
        assert forall|i: int| 0 <= i < text.len() implies lower_char(text[i]) == small[i] as char by {
            assert(bytes[i] < 128);
        }
    }
    assert(is_ascii_bytes(small)) by {
        assert forall|i: int| 0 <= i < small.len() implies #[trigger] small[i] < 128 by {
            assert(bytes[i] < 128);
        }
    }
    lemma_ascii_text(small);
}

/// Lowering leaves a text of ASCII bytes without capitals as it is: the
/// parsers scan such a statement as it is written.
pub proof fn lemma_small_text_is_lowered(bytes: Seq<u8>)
    requires
        is_small(bytes),
    ensures
        lower_text(ascii_text(bytes)) == ascii_text(bytes),
        lowered(ascii_text(bytes)) == bytes,
{
    assert(is_ascii_bytes(bytes));
    lemma_lowered_ascii(bytes);
    assert(lower_bytes(bytes) =~= bytes);
}

/// `str::make_ascii_lowercase`: replaces, in place, every ASCII capital `A`
/// to `Z` by its small letter and leaves every other character as it is.
#[verifier::external_body]
pub(crate) fn lower_in_place(text: &mut String)
    ensures
        final(text)@ == lower_text(old(text)@),
{
    text.make_ascii_lowercase();
}

/// ASCII whitespace: space, tab, line feed, form feed, carriage return.
pub open spec fn is_whitespace(b: u8) -> bool {
    b == 0x20 || b == 0x09 || b == 0x0a || b == 0x0c || b == 0x0d
}

/// The first position at or after `i` that holds no whitespace.
pub open spec fn skip_whitespace(s: Seq<u8>, i: int) -> int
    decreases s.len() - i,
{
    if 0 <= i < s.len() && is_whitespace(s[i]) {
        skip_whitespace(s, i + 1)
    } else {
        i
    }
}

/// `s` holds `tag` at position `i`.
pub open spec fn has_prefix(s: Seq<u8>, i: int, tag: Seq<u8>) -> bool {
    &&& 0 <= i
    &&& i + tag.len() <= s.len()
    &&& s.subrange(i, i + tag.len()) == tag
}

/// A byte that may start an identifier: `a` to `z`.
pub open spec fn is_ident_start(b: u8) -> bool {
    0x61 <= b <= 0x7a
}

/// A byte that may continue an identifier: `a` to `z`, a digit, `_` or `-`.
pub open spec fn is_ident_char(b: u8) -> bool {
    (0x61 <= b <= 0x7a) || (0x30 <= b <= 0x39) || b == 0x5f || b == 0x2d
}

/// The first position at or after `i` that holds no identifier byte.
pub open spec fn ident_end(s: Seq<u8>, i: int) -> int
    decreases s.len() - i,
{
    if 0 <= i < s.len() && is_ident_char(s[i]) {
        ident_end(s, i + 1)
    } else {
        i
    }
}

/// An identifier starts at position `i`.
pub open spec fn ident_at(s: Seq<u8>, i: int) -> bool {
    0 <= i < s.len() && is_ident_start(s[i])
}

/// A decimal digit.
pub open spec fn is_digit(b: u8) -> bool {
    0x30 <= b <= 0x39
}

/// The first position at or after `i` that holds no digit.
pub open spec fn digits_end(s: Seq<u8>, i: int) -> int
    decreases s.len() - i,
{
    if 0 <= i < s.len() && is_digit(s[i]) {
        digits_end(s, i + 1)
    } else {
        i
    }
}

/// The number that the digits of `s` from `i` up to `end` spell.
pub open spec fn digits_value(s: Seq<u8>, i: int, end: int) -> nat
    decreases end - i,
{
    if end <= i {
        0
    } else {
        digits_value(s, i, end - 1) * 10 + (s[end - 1] - 0x30) as nat
    }
}

/// What a timestamp at position `i` reads as, and where it ends: `now()`
/// gives the clock's value `now`, a run of digits gives the number it spells
/// if that fits 63 bits, and anything else gives nothing and ends at `i`.
pub open spec fn timestamp_at(s: Seq<u8>, i: int, now: i64) -> (Option<i64>, int) {
    if has_prefix(s, i, "now()".spec_bytes()) {
        (Some(now), i + "now()".spec_bytes().len())
    } else {
        let end = digits_end(s, i);
        if 0 <= i < end && digits_value(s, i, end) <= i64::MAX {
            (Some(digits_value(s, i, end) as i64), end)
        } else {
            (None, i)
        }
    }
}

pub proof fn lemma_skip_whitespace_bounds(s: Seq<u8>, i: int)
    ensures
        i <= skip_whitespace(s, i),
        0 <= i <= s.len() ==> skip_whitespace(s, i) <= s.len(),
    decreases s.len() - i,
{
    if 0 <= i < s.len() && is_whitespace(s[i]) {
        lemma_skip_whitespace_bounds(s, i + 1);
    }
}

pub proof fn lemma_ident_end_bounds(s: Seq<u8>, i: int)
    ensures
        i <= ident_end(s, i),
        0 <= i <= s.len() ==> ident_end(s, i) <= s.len(),
        ident_at(s, i) ==> i < ident_end(s, i),
        forall|j: int| i <= j < ident_end(s, i) && 0 <= i ==> is_ident_char(#[trigger] s[j]),
    decreases s.len() - i,
{
    if 0 <= i < s.len() && is_ident_char(s[i]) {
        lemma_ident_end_bounds(s, i + 1);
    }
}

pub proof fn lemma_digits_end_bounds(s: Seq<u8>, i: int)
    ensures
        i <= digits_end(s, i),
        0 <= i <= s.len() ==> digits_end(s, i) <= s.len(),
        forall|j: int| i <= j < digits_end(s, i) && 0 <= i ==> is_digit(#[trigger] s[j]),
    decreases s.len() - i,
{
    if 0 <= i < s.len() && is_digit(s[i]) {
        lemma_digits_end_bounds(s, i + 1);
    }
}

/// A longer run of digits spells no smaller a number.
pub proof fn lemma_digits_value_grows(s: Seq<u8>, i: int, mid: int, end: int)
    requires
        0 <= i <= mid <= end <= s.len(),
        forall|j: int| i <= j < end ==> is_digit(#[trigger] s[j]),
    ensures
        digits_value(s, i, mid) <= digits_value(s, i, end),
    decreases end - mid,
{
    if mid < end {
        lemma_digits_value_grows(s, i, mid, end - 1);
        assert(is_digit(s[end - 1]));
    }
}

/// Moves `index` past any run of ASCII whitespace.
pub fn advance_whitespace(s: &[u8], index: &mut usize)
    ensures
        *final(index) == skip_whitespace(s@, *old(index) as int),
{
    let mut i = *index;
    while i < s.len() && (s[i] == 0x20 || s[i] == 0x09 || s[i] == 0x0a || s[i] == 0x0c || s[i]
        == 0x0d)
        invariant
            *old(index) <= i,
            skip_whitespace(s@, i as int) == skip_whitespace(s@, *old(index) as int),
        decreases s.len() - i,
    {
        i += 1;
    }
    *index = i;
}

/// Reads the literal `tag` at `index` and moves past it; leaves `index`
/// alone where the input holds something else.
pub fn parse_ascii(tag: &str, s: &[u8], index: &mut usize) -> (found: bool)
    ensures
        found == has_prefix(s@, *old(index) as int, tag.spec_bytes()),
        *final(index) == if found {
            *old(index) + tag.spec_bytes().len()
        } else {
            *old(index) as int
        },
{
    let wanted = tag.as_bytes();
    let start = *index;
    if start > s.len() || wanted.len() > s.len() - start {
        return false;
    }
    let mut k: usize = 0;
    while k < wanted.len()
        invariant
            k <= wanted@.len(),
            start + wanted@.len() <= s@.len() <= usize::MAX,
            start == *old(index),
            *index == *old(index),
            wanted@ == tag.spec_bytes(),
            forall|j: int| 0 <= j < k ==> s@[start + j] == wanted@[j],
        decreases wanted.len() - k,
    {
        if s[start + k] != wanted[k] {
            assert(s@.subrange(start as int, start + wanted@.len())[k as int] != wanted@[k as int]);
            return false;
        }
        k += 1;
    }
    assert(s@.subrange(start as int, start + wanted@.len()) =~= wanted@);
    *index = start + wanted.len();
    true
}

/// Reads an identifier at `index`: a letter `a` to `z`, then letters, digits,
/// `_` and `-`. On success moves `index` past it and returns its text;
/// otherwise leaves `index` alone and returns no text.
pub fn parse_identifier(s: &[u8], index: &mut usize) -> (r: (bool, String))
    ensures
        r.0 == ident_at(s@, *old(index) as int),
        r.0 ==> *final(index) == ident_end(s@, *old(index) as int) && r.1@ == ascii_text(
            s@.subrange(*old(index) as int, *final(index) as int),
        ),
        !r.0 ==> *final(index) == *old(index) && r.1@.len() == 0,
{
    let start = *index;
    if start >= s.len() || s[start] < 0x61 || s[start] > 0x7a {
        return (false, String::new());
    }
    let mut end = start;
    while end < s.len() && ((0x61 <= s[end] && s[end] <= 0x7a) || (0x30 <= s[end] && s[end]
        <= 0x39) || s[end] == 0x5f || s[end] == 0x2d)
        invariant
            start <= end <= s@.len(),
            ident_end(s@, end as int) == ident_end(s@, start as int),
            forall|j: int| start <= j < end ==> is_ident_char(#[trigger] s@[j]),
        decreases s.len() - end,
    {
        end += 1;
    }
    let word = vstd::slice::slice_subrange(s, start, end);
    assert(is_ascii_bytes(word@)) by {
        assert forall|j: int| 0 <= j < word@.len() implies #[trigger] word@[j] < 128 by {
            assert(is_ident_char(s@[start + j]));
        }
    }
    let text = ascii_to_string(word);
    *index = end;
    (true, text)
}

/// Reads a timestamp at `index`, with `now` for the clock's value: `now()`,
/// or nanoseconds since the Unix epoch in decimal digits. On success moves
/// `index` past it; otherwise leaves `index` alone.
pub fn parse_timestamp_at(s: &[u8], index: &mut usize, now: i64) -> (r: Option<i64>)
    ensures
        r == timestamp_at(s@, *old(index) as int, now).0,
        *final(index) == timestamp_at(s@, *old(index) as int, now).1,
{
    if parse_ascii("now()", s, index) {
        return Some(now);
    }
    let start = *index;
    if start >= s.len() {
        return None;
    }
    let mut end = start;
    let mut value: i64 = 0;
    let mut fits = true;
    while end < s.len() && 0x30 <= s[end] && s[end] <= 0x39
        invariant
            start <= end <= s@.len(),
            digits_end(s@, end as int) == digits_end(s@, start as int),
            forall|j: int| start <= j < end ==> is_digit(#[trigger] s@[j]),
            fits ==> value as int == digits_value(s@, start as int, end as int),
            0 <= value,
            !fits ==> digits_value(s@, start as int, end as int) > i64::MAX,
        decreases s.len() - end,
    {
        let digit: i64 = (s[end] - 0x30) as i64;
        proof {
            lemma_digits_value_grows(s@, start as int, end as int, end as int + 1);
        }
        if fits {
            if value > (i64::MAX - digit) / 10 {
                fits = false;
            } else {
                value = value * 10 + digit;
            }
        }
        end += 1;
    }
    if end > start && fits {
        *index = end;
        Some(value)
    } else {
        None
    }
}

/// Reads a timestamp at `index` as `parse_timestamp_at` does, asking the
/// system clock for the value of `now()`.
pub fn parse_timestamp(s: &[u8], index: &mut usize) -> (r: Option<i64>)
    ensures
        exists|now: i64|
            r == (#[trigger] timestamp_at(s@, *old(index) as int, now)).0 && *final(index)
                == timestamp_at(s@, *old(index) as int, now).1,
{
    let now = new_timestamp();
    let r = parse_timestamp_at(s, index, now);
    assert(r == timestamp_at(s@, *old(index) as int, now).0);
    r
}

} // verus!
