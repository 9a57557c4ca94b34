//! Character classes and case folding.
//!
//! White space and decimal digits are small classes and are written down
//! here. The letters are those of the Unicode tables that `char` consults:
//! far too many to write down, so that class is a named predicate of which
//! only the standard library knows the value.

use vstd::prelude::*;

verus! {

/// Whether `c` is white space: one of the 25 characters that have the
/// Unicode property `White_Space`.
pub open spec fn is_space(c: char) -> bool {
    ||| '\u{9}' <= c && c <= '\u{d}'
    ||| c == ' '
    ||| c == '\u{85}'
    ||| c == '\u{a0}'
    ||| c == '\u{1680}'
    ||| '\u{2000}' <= c && c <= '\u{200a}'
    ||| c == '\u{2028}'
    ||| c == '\u{2029}'
    ||| c == '\u{202f}'
    ||| c == '\u{205f}'
    ||| c == '\u{3000}'
}

/// Whether `c` is a decimal digit, `'0'..='9'`.
pub open spec fn is_digit(c: char) -> bool {
    '0' <= c && c <= '9'
}

/// Whether `c` has the Unicode property `Alphabetic`.
pub uninterp spec fn is_letter(c: char) -> bool;

/// A character that may continue a word: a letter or a decimal digit.
pub open spec fn is_word(c: char) -> bool {
    is_letter(c) || is_digit(c)
}

/// `char::is_alphabetic` decides the class [`is_letter`].
pub assume_specification[ char::is_alphabetic ](c: char) -> (r: bool)
    ensures
        r == is_letter(c),
;

/// Tests whether `c` is white space.
pub fn test_space(c: char) -> (r: bool)
    ensures
        r == is_space(c),
{
    ('\u{9}' <= c && c <= '\u{d}') || c == ' ' || c == '\u{85}' || c == '\u{a0}' || c == '\u{1680}'
        || ('\u{2000}' <= c && c <= '\u{200a}') || c == '\u{2028}' || c == '\u{2029}' || c
        == '\u{202f}' || c == '\u{205f}' || c == '\u{3000}'
}

/// Tests whether `c` is a decimal digit.
pub fn test_digit(c: char) -> (r: bool)
    ensures
        r == is_digit(c),
{
    '0' <= c && c <= '9'
}

/// Tests whether `c` is a letter.
pub fn test_letter(c: char) -> (r: bool)
    ensures
        r == is_letter(c),
{
    c.is_alphabetic()
}

/// Tests whether `c` may continue a word.
pub fn test_word(c: char) -> (r: bool)
    ensures
        r == is_word(c),
{
    c.is_alphabetic() || test_digit(c)
}

/// The ASCII upper-case fold of one character: `'a'..='z'` move to
/// `'A'..='Z'`, every other character stays.
pub open spec fn fold(c: char) -> char {
    if 'a' <= c && c <= 'z' {
        ((c as u8) - 32) as char
    } else {
        c
    }
}

/// Folds one character to ASCII upper case.
pub fn to_upper(c: char) -> (r: char)
    ensures
        r == fold(c),
{
    if 'a' <= c && c <= 'z' {
        ((c as u8) - 32) as char
    } else {
        c
    }
}

} // verus!
