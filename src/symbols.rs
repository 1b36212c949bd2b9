use vstd::prelude::*;

verus! {

/// First code point of the range reserved for synthetic symbols: the
/// supplementary private use area A, which holds one code point for every
/// `u16` merge index.
pub const SYNTHETIC_BASE: u32 = 0xF0000;

/// The synthetic symbol allocated to the merge with the given index.
pub open spec fn synth(index: int) -> char {
    (SYNTHETIC_BASE as int + index) as char
}

/// Whether `c` lies in the reserved range, and so names the merge `c - SYNTHETIC_BASE`.
pub open spec fn is_reserved(c: char) -> bool {
    c as u32 >= SYNTHETIC_BASE
}

pub open spec fn synth_index(c: char) -> int {
    c as u32 - SYNTHETIC_BASE
}

/// Whether `c` is one of the ASCII punctuation characters
/// (`!`..`/`, `:`..`@`, `[`..`` ` ``, `{`..`~`).
pub open spec fn ascii_punctuation(c: char) -> bool {
    let x = c as u32;
    (0x21 <= x <= 0x2F) || (0x3A <= x <= 0x40) || (0x5B <= x <= 0x60) || (0x7B <= x <= 0x7E)
}

/// Whether `c` has the Unicode `White_Space` property.
pub uninterp spec fn whitespace_of(c: char) -> bool;

/// A symbol that may take part in a merge: neither whitespace nor ASCII punctuation.
pub open spec fn is_word_symbol(c: char) -> bool {
    !whitespace_of(c) && !ascii_punctuation(c)
}

/// Relies on `char::is_whitespace`, whose answer depends on the char alone.
#[verifier::external_body]
pub(crate) fn is_whitespace(c: char) -> (r: bool)
    ensures
        r == whitespace_of(c),
{
    c.is_whitespace()
}

/// Relies on `char::from_u32`: the char with that code when the code is a
/// Unicode scalar value, and `None` otherwise.
#[verifier::external_body]
fn char_from_code(code: u32) -> (r: Option<char>)
    ensures
        (code <= 0xD7FF || (0xE000 <= code && code <= 0x10FFFF)) ==> r == Some(code as char),
        !(code <= 0xD7FF || (0xE000 <= code && code <= 0x10FFFF)) ==> r is None,
{
    char::from_u32(code)
}

/// Relies on `str::chars` collected into a `Vec`: the chars of the text, in order.
#[verifier::external_body]
pub(crate) fn to_symbols(text: &str) -> (r: Vec<char>)
    ensures
        r@ == text@,
{
    text.chars().collect()
}

/// Relies on `String: FromIterator<&char>`: the string of exactly these chars, in order.
#[verifier::external_body]
pub(crate) fn from_symbols(s: &Vec<char>) -> (r: String)
    ensures
        r@ == s@,
{
    s.iter().collect()
}

pub fn is_ascii_punctuation(c: char) -> (r: bool)
    ensures
        r == ascii_punctuation(c),
{
    let x = c as u32;
    (0x21 <= x && x <= 0x2F) || (0x3A <= x && x <= 0x40) || (0x5B <= x && x <= 0x60) || (0x7B
        <= x && x <= 0x7E)
}

pub fn is_word_char(c: char) -> (r: bool)
    ensures
        r == is_word_symbol(c),
{
    !is_whitespace(c) && !is_ascii_punctuation(c)
}

/// The synthetic symbol of the merge with the given index.
pub fn synthetic_symbol(index: u16) -> (r: char)
    ensures
        r == synth(index as int),
        is_reserved(r),
        synth_index(r) == index as int,
{
    let code: u32 = SYNTHETIC_BASE + index as u32;
    match char_from_code(code) {
        Some(c) => c,
        None => '\0',
    }
}

} // verus!
