//! Lexical character classes of the RFC 822 address grammar.
//!
//! Each class is defined once as a specification function and once as an
//! executable test proved to agree with it.

use vstd::prelude::*;

verus! {

/// The structural characters of RFC 822: they delimit productions and may not
/// appear bare inside an atom.
pub open spec fn is_special(c: char) -> bool {
    c == '(' || c == ')' || c == '<' || c == '>' || c == '@' || c == ',' || c == ';'
        || c == ':' || c == '\\' || c == '"' || c == '.' || c == '[' || c == ']'
}

/// ASCII control characters.
pub open spec fn is_ctl(c: char) -> bool {
    (c as u32) < 32 || (c as u32) == 127
}

/// A character that may stand in an atom: anything but specials, space and
/// controls.
pub open spec fn is_atom_char(c: char) -> bool {
    !is_special(c) && !is_ctl(c) && c != ' '
}

/// Linear white space within a line: space or horizontal tab.
pub open spec fn is_wsp(c: char) -> bool {
    c == ' ' || c == '\t'
}

/// A character allowed bare inside a quoted string.
pub open spec fn is_qtext(c: char) -> bool {
    c != '"' && c != '\\' && c != '\r'
}

/// A character allowed bare inside a comment.
pub open spec fn is_ctext(c: char) -> bool {
    c != '(' && c != ')' && c != '\\' && c != '\r'
}

/// A character allowed bare inside a domain literal.
pub open spec fn is_dtext(c: char) -> bool {
    c != '[' && c != ']' && c != '\\' && c != '\r'
}

pub fn atom_char(c: char) -> (b: bool)
    ensures
        b == is_atom_char(c),
{
    let u = c as u32;
    !(c == '(' || c == ')' || c == '<' || c == '>' || c == '@' || c == ',' || c == ';'
        || c == ':' || c == '\\' || c == '"' || c == '.' || c == '[' || c == ']') && u >= 32
        && u != 127 && c != ' '
}

pub fn wsp_char(c: char) -> (b: bool)
    ensures
        b == is_wsp(c),
{
    c == ' ' || c == '\t'
}

pub fn qtext_char(c: char) -> (b: bool)
    ensures
        b == is_qtext(c),
{
    c != '"' && c != '\\' && c != '\r'
}

pub fn ctext_char(c: char) -> (b: bool)
    ensures
        b == is_ctext(c),
{
    c != '(' && c != ')' && c != '\\' && c != '\r'
}

pub fn dtext_char(c: char) -> (b: bool)
    ensures
        b == is_dtext(c),
{
    c != '[' && c != ']' && c != '\\' && c != '\r'
}

} // verus!
