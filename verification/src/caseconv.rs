//! Case conversion and Unicode character classes, supplied by outside code.
//!
//! The results are fixed functions of the input characters alone, so each is
//! given an opaque name that the callers' contracts can share.

use vstd::prelude::*;

verus! {

/// The snake_case conversion of a string.
pub uninterp spec fn snake_of(s: Seq<char>) -> Seq<char>;

/// The SHOUTY_SNAKE_CASE conversion of a string.
pub uninterp spec fn shouty_snake_of(s: Seq<char>) -> Seq<char>;

/// The Unicode lowercase conversion of a string.
pub uninterp spec fn lower_of(s: Seq<char>) -> Seq<char>;

/// Whether a character is Unicode alphanumeric.
pub uninterp spec fn unicode_alnum(c: char) -> bool;

/// Whether a character is Unicode numeric.
pub uninterp spec fn unicode_num(c: char) -> bool;

/// Relies on heck's `to_snake_case`: the result depends on the characters
/// alone.
#[verifier::external_body]
pub fn snake_case(s: &str) -> (r: String)
    ensures
        r@ == snake_of(s@),
{
    heck::ToSnakeCase::to_snake_case(s)
}

/// Relies on heck's `to_shouty_snake_case`: the result depends on the
/// characters alone.
#[verifier::external_body]
pub fn shouty_snake_case(s: &str) -> (r: String)
    ensures
        r@ == shouty_snake_of(s@),
{
    heck::ToShoutySnakeCase::to_shouty_snake_case(s)
}

/// Relies on `str::to_lowercase`: the result depends on the characters alone.
#[verifier::external_body]
pub fn lowercase(s: &str) -> (r: String)
    ensures
        r@ == lower_of(s@),
{
    s.to_lowercase()
}

/// Relies on `char::is_alphanumeric`: a fixed Unicode property of the
/// character.
#[verifier::external_body]
pub fn char_is_alnum(c: char) -> (r: bool)
    ensures
        r == unicode_alnum(c),
{
    c.is_alphanumeric()
}

/// Relies on `char::is_numeric`: a fixed Unicode property of the character.
#[verifier::external_body]
pub fn char_is_num(c: char) -> (r: bool)
    ensures
        r == unicode_num(c),
{
    c.is_numeric()
}

} // verus!
