//! Character classification.
//!
//! The two Unicode classes the lexers branch on — whitespace and
//! alphanumerics — are decided by `std`'s character tables; their outcome is
//! given a name here and the calls stand behind trusted wrappers. ASCII
//! punctuation has a four-line definition, so it is stated and proved
//! outright.

use vstd::prelude::*;

verus! {

/// What `char::is_whitespace` returns for `c`: whether the character has the
/// Unicode `White_Space` property. The classification depends on the
/// character alone.
pub uninterp spec fn is_white(c: char) -> bool;

/// What `char::is_alphanumeric` returns for `c`: whether the character is
/// alphabetic or a Unicode digit character. The classification depends on
/// the character alone.
pub uninterp spec fn is_alnum(c: char) -> bool;

/// ASCII punctuation, exactly the four ranges that `char::is_ascii_punctuation`
/// documents: `!`..=`/`, `:`..=`@`, `[`..=`` ` ``, `{`..=`~`.
pub open spec fn is_ascii_punct(c: char) -> bool {
    (0x21 <= c as u32 && c as u32 <= 0x2f) || (0x3a <= c as u32 && c as u32 <= 0x40) || (0x5b
        <= c as u32 && c as u32 <= 0x60) || (0x7b <= c as u32 && c as u32 <= 0x7e)
}

/// Relies on `char::is_whitespace`: true exactly for characters with the
/// Unicode `White_Space` property, a function of the character alone.
#[verifier::external_body]
pub(crate) fn char_is_whitespace(c: char) -> (r: bool)
    ensures
        r == is_white(c),
{
    c.is_whitespace()
}

/// Relies on `char::is_alphanumeric`: true exactly for alphabetic and
/// numeric characters, a function of the character alone.
#[verifier::external_body]
pub(crate) fn char_is_alphanumeric(c: char) -> (r: bool)
    ensures
        r == is_alnum(c),
{
    c.is_alphanumeric()
}

/// Whether `c` is ASCII punctuation; agrees with `char::is_ascii_punctuation`.
pub fn char_is_ascii_punct(c: char) -> (r: bool)
    ensures
        r == is_ascii_punct(c),
{
    let u = c as u32;
    (0x21 <= u && u <= 0x2f) || (0x3a <= u && u <= 0x40) || (0x5b <= u && u <= 0x60) || (0x7b <= u
        && u <= 0x7e)
}

} // verus!
