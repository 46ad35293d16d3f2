use vstd::prelude::*;

verus! {

/// Whether a character has the Unicode `Alphabetic` property.
pub uninterp spec fn unicode_alphabetic(c: char) -> bool;

/// Calls `char::is_alphabetic`. The answer is taken on trust and only given
/// a name: nothing is claimed about which characters are alphabetic.
#[verifier::external_body]
fn is_unicode_alphabetic(c: char) -> (yes: bool)
    ensures
        yes == unicode_alphabetic(c),
{
    c.is_alphabetic()
}

/// Calls `String::push`, which appends one character to the text.
#[verifier::external_body]
pub(crate) fn push_char(text: &mut String, c: char)
    ensures
        final(text)@ == old(text)@.push(c),
{
    text.push(c)
}

/// A letter of the ASCII alphabet.
pub open spec fn is_ascii_letter(c: char) -> bool {
    ('a' <= c && c <= 'z') || ('A' <= c && c <= 'Z')
}

/// A character that may stand in an identifier: an underscore or a letter.
/// Inside ASCII the letters are `a` to `z` and `A` to `Z`; beyond it, the
/// characters that Unicode calls alphabetic.
pub open spec fn is_identifier_char(c: char) -> bool {
    c == '_' || is_ascii_letter(c) || (c > '\x7f' && unicode_alphabetic(c))
}

/// The value of a character as a digit: `0` to `9`, then the letters in
/// either case from ten upwards. `None` for anything else.
pub open spec fn digit_value(c: char) -> Option<int> {
    if '0' <= c && c <= '9' {
        Some(c as int - '0' as int)
    } else if 'a' <= c && c <= 'z' {
        Some(c as int - 'a' as int + 10)
    } else if 'A' <= c && c <= 'Z' {
        Some(c as int - 'A' as int + 10)
    } else {
        None
    }
}

/// Whether a character is a digit of the given base.
pub open spec fn is_digit_in(c: char, radix: int) -> bool {
    match digit_value(c) {
        Some(d) => d < radix,
        None => false,
    }
}

pub fn identifier_char(c: char) -> (yes: bool)
    ensures
        yes == is_identifier_char(c),
{
    if c == '_' {
        true
    } else if c <= '\x7f' {
        ('a' <= c && c <= 'z') || ('A' <= c && c <= 'Z')
    } else {
        is_unicode_alphabetic(c)
    }
}

/// The digit that a character stands for, as a number.
pub fn to_digit(c: char) -> (value: Option<u32>)
    ensures
        match digit_value(c) {
            Some(d) => value == Some(d as u32) && d < 36,
            None => value.is_none(),
        },
{
    if '0' <= c && c <= '9' {
        Some(c as u32 - '0' as u32)
    } else if 'a' <= c && c <= 'z' {
        Some(c as u32 - 'a' as u32 + 10)
    } else if 'A' <= c && c <= 'Z' {
        Some(c as u32 - 'A' as u32 + 10)
    } else {
        None
    }
}

pub fn digit_in(c: char, radix: u32) -> (yes: bool)
    ensures
        yes == is_digit_in(c, radix as int),
{
    match to_digit(c) {
        Some(d) => d < radix,
        None => false,
    }
}

} // verus!
