//! The text of a buffer, held in a `ropey::Rope`, and the lines it falls into.

use ropey::{Rope, RopeSlice};
use vstd::prelude::*;

verus! {

/// `ropey::Rope`, of which only the text is spoken: see `rope_text`.
#[verifier::external_type_specification]
#[verifier::external_body]
pub struct ExRope(Rope);

/// `ropey::RopeSlice`, of which only the text is spoken: see `slice_text`.
#[verifier::external_type_specification]
#[verifier::external_body]
pub struct ExRopeSlice<'a>(RopeSlice<'a>);

/// The characters that a rope holds.
pub uninterp spec fn rope_text(rope: Rope) -> Seq<char>;

/// The characters that a rope slice shows.
pub uninterp spec fn slice_text(slice: RopeSlice<'_>) -> Seq<char>;

/// A character that ends a line: LF, VT, FF, CR, NEL, LS or PS.
pub open spec fn is_line_break(c: char) -> bool {
    c == '\n' || c == '\u{b}' || c == '\u{c}' || c == '\r' || c == '\u{85}' || c == '\u{2028}'
        || c == '\u{2029}'
}

/// How many characters the first line of `text` takes up, its line break included. A carriage
/// return and the line feed behind it are one line break.
pub open spec fn first_line_len(text: Seq<char>) -> nat
    decreases text.len(),
{
    if text.len() == 0 {
        0
    } else if text[0] == '\r' && text.len() > 1 && text[1] == '\n' {
        2
    } else if is_line_break(text[0]) {
        1
    } else {
        1 + first_line_len(text.skip(1))
    }
}

/// Whether `text` ends in a line break.
pub open spec fn ends_in_break(text: Seq<char>) -> bool {
    text.len() > 0 && is_line_break(text.last())
}

/// The lines of `text`. Each keeps the line break that ends it; the last one has none, and is
/// empty where the text ends in a line break.
pub open spec fn lines_of(text: Seq<char>) -> Seq<Seq<char>>
    decreases text.len(),
{
    let n = first_line_len(text) as int;
    if 0 < n <= text.len() && ends_in_break(text.take(n)) {
        seq![text.take(n)] + lines_of(text.skip(n))
    } else {
        seq![text]
    }
}

/// `Rope::from_str` makes a rope that holds the given text.
#[verifier::external_body]
pub(crate) fn rope_from_str(text: &str) -> (rope: Rope)
    ensures
        rope_text(rope) == text@,
{
    Rope::from_str(text)
}

/// `Rope::new` makes a rope that holds nothing.
#[verifier::external_body]
pub(crate) fn rope_new() -> (rope: Rope)
    ensures
        rope_text(rope) == Seq::<char>::empty(),
{
    Rope::new()
}

/// `Rope::clone` makes a rope that holds the same text.
#[verifier::external_body]
pub(crate) fn rope_clone(rope: &Rope) -> (copy: Rope)
    ensures
        rope_text(copy) == rope_text(*rope),
{
    rope.clone()
}

/// `String::from` on a rope collects its chunks, which make up its text.
#[verifier::external_body]
pub(crate) fn rope_string(rope: &Rope) -> (text: String)
    ensures
        text@ == rope_text(*rope),
{
    String::from(rope)
}

/// `Rope::len_lines` counts the lines: one more than there are line breaks.
#[verifier::external_body]
pub(crate) fn rope_len_lines(rope: &Rope) -> (count: usize)
    ensures
        count == lines_of(rope_text(*rope)).len(),
{
    rope.len_lines()
}

/// `Rope::line` gives the line at an index, its line break included. It panics past the last
/// line.
#[verifier::external_body]
pub(crate) fn rope_line(rope: &Rope, index: usize) -> (line: RopeSlice<'_>)
    requires
        index < lines_of(rope_text(*rope)).len(),
    ensures
        slice_text(line) == lines_of(rope_text(*rope))[index as int],
{
    rope.line(index)
}

/// `RopeSlice::len_chars` counts the characters of the slice.
#[verifier::external_body]
pub(crate) fn slice_len_chars(slice: &RopeSlice<'_>) -> (count: usize)
    ensures
        count == slice_text(*slice).len(),
{
    slice.len_chars()
}

/// `RopeSlice::chars` walks the characters of the slice, first to last.
#[verifier::external_body]
pub(crate) fn slice_chars(slice: &RopeSlice<'_>) -> (chars: Vec<char>)
    ensures
        chars@ == slice_text(*slice),
{
    slice.chars().collect()
}

} // verus!
