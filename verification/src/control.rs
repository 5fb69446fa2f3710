//! C0 and C1 control codes that the Info format uses.
//! See https://en.wikipedia.org/wiki/C0_and_C1_control_codes
use vstd::prelude::*;

verus! {

pub const BACKSPACE: char = '\u{8}';

pub const DELETE: char = '\u{7f}';

pub const FORM_FEED: char = '\u{c}';

pub const NULL: char = '\u{0}';

pub const UNIT_SEPARATOR: char = '\u{1f}';

pub const LINE_FEED: char = '\u{a}';

/// Whether `s` holds `c` at position `p`.
pub open spec fn char_at(s: Seq<char>, p: int, c: char) -> bool {
    0 <= p < s.len() && s[p] == c
}

/// Recognizes the character `c` at `p`; the result is the position after it.
pub fn control_char(s: &[char], p: usize, c: char) -> (r: Option<usize>)
    ensures
        r matches Some(q) ==> char_at(s@, p as int, c) && q == p + 1,
        r is None ==> !char_at(s@, p as int, c),
{
    if p < s.len() && s[p] == c {
        Some(p + 1)
    } else {
        None
    }
}

/// ^L
pub fn form_feed(s: &[char], p: usize) -> (r: Option<usize>)
    ensures
        r matches Some(q) ==> char_at(s@, p as int, FORM_FEED) && q == p + 1,
        r is None ==> !char_at(s@, p as int, FORM_FEED),
{
    control_char(s, p, FORM_FEED)
}

/// ^_
pub fn unit_separator(s: &[char], p: usize) -> (r: Option<usize>)
    ensures
        r matches Some(q) ==> char_at(s@, p as int, UNIT_SEPARATOR) && q == p + 1,
        r is None ==> !char_at(s@, p as int, UNIT_SEPARATOR),
{
    control_char(s, p, UNIT_SEPARATOR)
}

/// ^J
pub fn line_feed(s: &[char], p: usize) -> (r: Option<usize>)
    ensures
        r matches Some(q) ==> char_at(s@, p as int, LINE_FEED) && q == p + 1,
        r is None ==> !char_at(s@, p as int, LINE_FEED),
{
    control_char(s, p, LINE_FEED)
}

/// ^@
pub fn null(s: &[char], p: usize) -> (r: Option<usize>)
    ensures
        r matches Some(q) ==> char_at(s@, p as int, NULL) && q == p + 1,
        r is None ==> !char_at(s@, p as int, NULL),
{
    control_char(s, p, NULL)
}

/// ^H
pub fn backspace(s: &[char], p: usize) -> (r: Option<usize>)
    ensures
        r matches Some(q) ==> char_at(s@, p as int, BACKSPACE) && q == p + 1,
        r is None ==> !char_at(s@, p as int, BACKSPACE),
{
    control_char(s, p, BACKSPACE)
}

/// ^?
pub fn delete(s: &[char], p: usize) -> (r: Option<usize>)
    ensures
        r matches Some(q) ==> char_at(s@, p as int, DELETE) && q == p + 1,
        r is None ==> !char_at(s@, p as int, DELETE),
{
    control_char(s, p, DELETE)
}

} // verus!
