//! Trusted boundary to `ropey`, the rope that stores the editable text.
//!
//! `rope_text` names the sequence of Unicode scalar values a rope holds; the
//! wrappers below say, over that name and the line model of `lines`, what
//! each rope call this crate relies on returns or changes.  The crate is
//! built with ropey's line-detection features off, so the only line
//! terminator ropey recognizes is `'\n'`, which is exactly what the
//! `lines` model assumes.

use vstd::prelude::*;
use crate::lines::line_count;
use crate::lines::line_start;

verus! {

/// What the rope holds, as a sequence of Unicode scalar values.
pub uninterp spec fn rope_text(r: ropey::Rope) -> Seq<char>;

#[verifier::external_type_specification]
#[verifier::external_body]
pub struct ExRope(ropey::Rope);

/// Relies on ropey::Rope::from_str: builds a rope holding exactly the given
/// text.
#[verifier::external_body]
pub(crate) fn rope_from_str(s: &str) -> (r: ropey::Rope)
    ensures
        rope_text(r) == s@,
{
    ropey::Rope::from_str(s)
}

/// Relies on ropey::Rope::len_chars: the total number of chars of the rope.
#[verifier::external_body]
pub(crate) fn rope_len_chars(r: &ropey::Rope) -> (n: usize)
    ensures
        n == rope_text(*r).len(),
{
    r.len_chars()
}

/// Relies on ropey::Rope::len_lines: one more than the number of line
/// terminators (with ropey's line-detection features off, terminators are
/// exactly `'\n'`).
#[verifier::external_body]
pub(crate) fn rope_len_lines(r: &ropey::Rope) -> (n: usize)
    ensures
        n == line_count(rope_text(*r)),
{
    r.len_lines()
}

/// Relies on ropey::Rope::line_to_char: the char offset of the first
/// character of the given line; the index one past the last line is answered
/// with the total char count.
#[verifier::external_body]
pub(crate) fn rope_line_to_char(r: &ropey::Rope, i: usize) -> (n: usize)
    requires
        i <= line_count(rope_text(*r)),
    ensures
        i < line_count(rope_text(*r)) ==> n == line_start(rope_text(*r), i as nat),
        i == line_count(rope_text(*r)) ==> n == rope_text(*r).len(),
{
    r.line_to_char(i)
}

/// Relies on ropey::Rope::char: the character at the given char offset.
#[verifier::external_body]
pub(crate) fn rope_char_at(r: &ropey::Rope, pos: usize) -> (c: char)
    requires
        pos < rope_text(*r).len(),
    ensures
        c == rope_text(*r)[pos as int],
{
    r.char(pos)
}

/// Relies on ropey::Rope::insert_char: inserts one character at the given
/// char offset, shifting what follows.
#[verifier::external_body]
pub(crate) fn rope_insert_char(r: &mut ropey::Rope, pos: usize, ch: char)
    requires
        pos <= rope_text(*old(r)).len(),
    ensures
        rope_text(*final(r)) == rope_text(*old(r)).insert(pos as int, ch),
{
    r.insert_char(pos, ch)
}

/// Relies on ropey::Rope::remove: removes the character at the given char
/// offset, shifting what follows.
#[verifier::external_body]
pub(crate) fn rope_remove_char(r: &mut ropey::Rope, pos: usize)
    requires
        pos < rope_text(*old(r)).len(),
    ensures
        rope_text(*final(r)) == rope_text(*old(r)).remove(pos as int),
{
    r.remove(pos..pos + 1)
}

/// Relies on ropey::Rope's Display impl: writes out the whole text.
#[verifier::external_body]
pub(crate) fn rope_to_string(r: &ropey::Rope) -> (s: String)
    ensures
        s@ == rope_text(*r),
{
    r.to_string()
}

/// Relies on ropey::Rope::slice and RopeSlice's Display impl: the text
/// between two char offsets.
#[verifier::external_body]
pub(crate) fn rope_slice_to_string(r: &ropey::Rope, from: usize, to: usize) -> (s: String)
    requires
        from <= to <= rope_text(*r).len(),
    ensures
        s@ == rope_text(*r).subrange(from as int, to as int),
{
    r.slice(from..to).to_string()
}

/// Relies on ropey's PartialEq between Rope and str: char-for-char equality
/// of the held text.
#[verifier::external_body]
pub(crate) fn rope_eq_str(r: &ropey::Rope, s: &str) -> (b: bool)
    ensures
        b <==> rope_text(*r) == s@,
{
    *r == s
}

} // verus!
