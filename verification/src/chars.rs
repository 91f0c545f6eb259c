//! Character classifiers: pure, total predicates over a single byte. They
//! compose hierarchically, and every token boundary downstream depends on
//! them.

use vstd::prelude::*;

verus! {

/// CHAR8: any octet except NUL (0x00). Literal payload bytes must each
/// satisfy this.
pub open spec fn spec_is_char8(c: u8) -> bool {
    c != 0
}

/// CHAR: any 7-bit US-ASCII character excluding NUL (0x01 through 0x7F).
pub open spec fn spec_is_char(c: u8) -> bool {
    0x01 <= c <= 0x7f
}

/// TEXT-CHAR: any CHAR except CR and LF.
pub open spec fn spec_is_text_char(c: u8) -> bool {
    spec_is_char(c) && c != 0x0d && c != 0x0a
}

/// quoted-specials: double quote or backslash.
pub open spec fn spec_is_quoted_specials(c: u8) -> bool {
    c == 0x22 || c == 0x5c
}

/// resp-specials: closing square bracket.
pub open spec fn spec_is_resp_specials(c: u8) -> bool {
    c == 0x5d
}

/// list-wildcards: percent or asterisk.
pub open spec fn spec_is_list_wildcards(c: u8) -> bool {
    c == 0x25 || c == 0x2a
}

/// atom-specials: parentheses, opening brace, space, control bytes, and the
/// list-wildcard, quoted-special and resp-special classes.
pub open spec fn spec_is_atom_specials(c: u8) -> bool {
    ||| c == 0x28
    ||| c == 0x29
    ||| c == 0x7b
    ||| c == 0x20
    ||| c < 0x20
    ||| spec_is_list_wildcards(c)
    ||| spec_is_quoted_specials(c)
    ||| spec_is_resp_specials(c)
}

/// ATOM-CHAR: any CHAR that is not an atom-special.
pub open spec fn spec_is_atom_char(c: u8) -> bool {
    spec_is_char(c) && !spec_is_atom_specials(c)
}

/// ASTRING-CHAR: an ATOM-CHAR or a resp-special.
pub open spec fn spec_is_astring_char(c: u8) -> bool {
    spec_is_atom_char(c) || spec_is_resp_specials(c)
}

/// A decimal digit byte.
pub open spec fn spec_is_digit(c: u8) -> bool {
    0x30 <= c <= 0x39
}

pub fn is_char8(i: u8) -> (r: bool)
    ensures
        r == spec_is_char8(i),
{
    i != 0
}

pub fn is_char(c: u8) -> (r: bool)
    ensures
        r == spec_is_char(c),
{
    c >= 0x01 && c <= 0x7f
}

pub fn is_text_char(c: u8) -> (r: bool)
    ensures
        r == spec_is_text_char(c),
{
    is_char(c) && c != 0x0d && c != 0x0a
}

pub fn is_quoted_specials(c: u8) -> (r: bool)
    ensures
        r == spec_is_quoted_specials(c),
{
    c == 0x22 || c == 0x5c
}

pub fn is_resp_specials(c: u8) -> (r: bool)
    ensures
        r == spec_is_resp_specials(c),
{
    c == 0x5d
}

pub fn is_list_wildcards(c: u8) -> (r: bool)
    ensures
        r == spec_is_list_wildcards(c),
{
    c == 0x25 || c == 0x2a
}

pub fn is_atom_specials(c: u8) -> (r: bool)
    ensures
        r == spec_is_atom_specials(c),
{
    c == 0x28 || c == 0x29 || c == 0x7b || c == 0x20 || c < 32 || is_list_wildcards(c)
        || is_quoted_specials(c) || is_resp_specials(c)
}

pub fn is_atom_char(c: u8) -> (r: bool)
    ensures
        r == spec_is_atom_char(c),
{
    is_char(c) && !is_atom_specials(c)
}

pub fn is_astring_char(c: u8) -> (r: bool)
    ensures
        r == spec_is_astring_char(c),
{
    is_atom_char(c) || is_resp_specials(c)
}

} // verus!
