//! Unicode character classes and case mapping from the standard library.

use vstd::prelude::*;
use crate::text::{ascii_lower, ascii_lower_seq};

verus! {

/// An ASCII character.
pub open spec fn is_ascii_char(c: char) -> bool {
    (c as u32) < 128
}

/// An ASCII letter.
pub open spec fn is_ascii_letter(c: char) -> bool {
    ('a' <= c <= 'z') || ('A' <= c <= 'Z')
}

/// An ASCII digit.
pub open spec fn is_ascii_digit_char(c: char) -> bool {
    '0' <= c <= '9'
}

/// `char::is_alphanumeric`: the character is alphabetic or numeric in
/// Unicode.
pub uninterp spec fn unicode_alphanumeric(c: char) -> bool;

/// `char::is_uppercase`: the character has the Unicode `Uppercase`
/// property.
pub uninterp spec fn unicode_uppercase(c: char) -> bool;

/// `str::to_lowercase`: the Unicode lowercase mapping of a text.
pub uninterp spec fn unicode_lowercase(s: Seq<char>) -> Seq<char>;

/// `char::is_alphanumeric`; on ASCII, true exactly for letters and digits.
#[verifier::external_body]
pub fn is_alphanumeric(c: char) -> (r: bool)
    ensures
        r == unicode_alphanumeric(c),
        is_ascii_char(c) ==> (r <==> is_ascii_letter(c) || is_ascii_digit_char(c)),
{
    c.is_alphanumeric()
}

/// `char::is_uppercase`; on ASCII, true exactly for `A`-`Z`.
#[verifier::external_body]
pub fn is_uppercase(c: char) -> (r: bool)
    ensures
        r == unicode_uppercase(c),
        is_ascii_char(c) ==> (r <==> 'A' <= c <= 'Z'),
{
    c.is_uppercase()
}

/// `str::to_lowercase`; an all-ASCII text maps `A`-`Z` to `a`-`z` and keeps
/// the rest.
#[verifier::external_body]
pub fn to_lowercase(s: &str) -> (r: String)
    ensures
        r@ == unicode_lowercase(s@),
        (forall|i: int| 0 <= i < s@.len() ==> is_ascii_char(#[trigger] s@[i])) ==> r@ == ascii_lower_seq(s@),
{
    s.to_lowercase()
}

/// `char::is_lowercase`: the character has the Unicode `Lowercase`
/// property.
pub uninterp spec fn unicode_lowercase_char(c: char) -> bool;

/// `char::is_numeric`: the character is in a Unicode numeric category.
pub uninterp spec fn unicode_numeric(c: char) -> bool;

/// `char::to_lowercase`: the characters of the lowercase mapping of one
/// character.
pub uninterp spec fn unicode_char_lowercase(c: char) -> Seq<char>;

/// `char::is_lowercase`; on ASCII, true exactly for `a`-`z`.
#[verifier::external_body]
pub fn is_lowercase(c: char) -> (r: bool)
    ensures
        r == unicode_lowercase_char(c),
        is_ascii_char(c) ==> (r <==> 'a' <= c <= 'z'),
{
    c.is_lowercase()
}

/// `char::is_numeric`; on ASCII, true exactly for `0`-`9`.
#[verifier::external_body]
pub fn is_numeric(c: char) -> (r: bool)
    ensures
        r == unicode_numeric(c),
        is_ascii_char(c) ==> (r <==> is_ascii_digit_char(c)),
{
    c.is_numeric()
}

/// `char::to_lowercase`, collected into a string; an ASCII character maps to
/// its ASCII lowercase alone.
#[verifier::external_body]
pub fn char_to_lowercase(c: char) -> (r: String)
    ensures
        r@ == unicode_char_lowercase(c),
        is_ascii_char(c) ==> r@ == seq![ascii_lower(c)],
{
    c.to_lowercase().collect()
}

} // verus!
