//! Unicode character classes, as the standard library defines them.
use vstd::prelude::*;

verus! {

/// Unicode `White_Space` (PropList.txt): tab through carriage return, space,
/// next line, no-break space, ogham space mark, en quad through hair space,
/// line and paragraph separators, narrow no-break space, medium
/// mathematical space, ideographic space.
pub open spec fn unicode_white_space(c: char) -> bool {
    let u = c as u32;
    ||| 0x09 <= u <= 0x0D
    ||| u == 0x20
    ||| u == 0x85
    ||| u == 0xA0
    ||| u == 0x1680
    ||| 0x2000 <= u <= 0x200A
    ||| u == 0x2028
    ||| u == 0x2029
    ||| u == 0x202F
    ||| u == 0x205F
    ||| u == 0x3000
}

/// Unicode `Alphabetic`, as `char::is_alphabetic` decides it.
pub uninterp spec fn unicode_alphabetic(c: char) -> bool;

/// Unicode `Alphabetic` or `Numeric`, as `char::is_alphanumeric` decides it.
pub uninterp spec fn unicode_alphanumeric(c: char) -> bool;

/// Whether the character has the Unicode `White_Space` property (what
/// `char::is_whitespace` decides).
pub(crate) fn char_is_whitespace(c: char) -> (r: bool)
    ensures
        r == unicode_white_space(c),
{
    let u = c as u32;
    (0x09 <= u && u <= 0x0D) || u == 0x20 || u == 0x85 || u == 0xA0 || u == 0x1680 || (0x2000 <= u && u <= 0x200A)
        || u == 0x2028 || u == 0x2029 || u == 0x202F || u == 0x205F || u == 0x3000
}

/// `char::is_alphabetic`: ASCII letters are alphabetic; ASCII digits and
/// ASCII punctuation are not.
#[verifier::external_body]
pub(crate) fn char_is_alphabetic(c: char) -> (r: bool)
    ensures
        r == unicode_alphabetic(c),
        (('a' <= c <= 'z') || ('A' <= c <= 'Z')) ==> r,
        ((c as u32) < 128 && !(('a' <= c <= 'z') || ('A' <= c <= 'Z'))) ==> !r,
{
    c.is_alphabetic()
}

/// `char::is_alphanumeric`: ASCII letters and digits are alphanumeric; other
/// ASCII characters are not.
#[verifier::external_body]
pub(crate) fn char_is_alphanumeric(c: char) -> (r: bool)
    ensures
        r == unicode_alphanumeric(c),
        (('a' <= c <= 'z') || ('A' <= c <= 'Z') || ('0' <= c <= '9')) ==> r,
        ((c as u32) < 128 && !(('a' <= c <= 'z') || ('A' <= c <= 'Z') || ('0' <= c <= '9'))) ==> !r,
{
    c.is_alphanumeric()
}

} // verus!
