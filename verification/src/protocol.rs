//! The messages that a runtime sends, and the edits that the editor takes.

use vstd::prelude::*;

verus! {

/// A place in a document: a line, and a character in it, both counted from zero.
#[derive(Clone, Copy, Debug, PartialEq, Eq, Structural)]
pub struct Position {
    pub line: u64,
    pub character: u64,
}

/// The part of a document from `start` up to, but not including, `end`.
#[derive(Clone, Copy, Debug, PartialEq, Eq, Structural)]
pub struct Range {
    pub start: Position,
    pub end: Position,
}

/// Replaces the text in `range` by `new_text`.
#[derive(Debug)]
pub struct TextEdit {
    pub range: Range,
    pub new_text: String,
}

/// What a `TextEdit` does, in mathematical terms.
pub struct EditView {
    pub start_line: int,
    pub start_character: int,
    pub end_line: int,
    pub end_character: int,
    pub new_text: Seq<char>,
}

impl View for TextEdit {
    type V = EditView;

    open spec fn view(&self) -> EditView {
        EditView {
            start_line: self.range.start.line as int,
            start_character: self.range.start.character as int,
            end_line: self.range.end.line as int,
            end_character: self.range.end.character as int,
            new_text: self.new_text@,
        }
    }
}

/// The edit that replaces the whole lines from `start` up to, but not including, `end`.
pub open spec fn line_edit(start: int, end: int, new_text: Seq<char>) -> EditView {
    EditView { start_line: start, start_character: 0, end_line: end, end_character: 0, new_text }
}

/// What each of `edits` does.
pub open spec fn edit_views(edits: Seq<TextEdit>) -> Seq<EditView> {
    edits.map_values(|edit: TextEdit| edit@)
}

impl TextEdit {
    /// The edit that replaces the whole lines from `start` up to, but not including, `end`.
    pub fn of_lines(start: usize, end: usize, new_text: String) -> (edit: TextEdit)
        ensures
            edit@ == line_edit(start as int, end as int, new_text@),
    {
        TextEdit {
            range: Range {
                start: Position { line: start as u64, character: 0 },
                end: Position { line: end as u64, character: 0 },
            },
            new_text,
        }
    }
}

/// A single stack frame: a line of a file, counted from one.
#[derive(Debug, PartialEq, Eq, Hash)]
pub struct Frame {
    pub file: String,
    pub line: u64,
}

/// What tells one frame from another.
pub type FrameKey = (Seq<char>, u64);

impl View for Frame {
    type V = FrameKey;

    open spec fn view(&self) -> FrameKey {
        (self.file@, self.line)
    }
}

impl Frame {
    /// The same frame once more.
    pub fn copy(&self) -> (frame: Frame)
        ensures
            frame == *self,
    {
        Frame { file: self.file.clone(), line: self.line }
    }
}

/// What a piece of output is.
#[derive(Clone, Copy, Debug, PartialEq, Eq, Structural)]
pub enum RawEntryKind {
    Output,
    Debug,
    Error,
    Regex,
}

/// What a message carries.
#[derive(Debug)]
pub enum RawEntryInner {
    /// Text to show. Without a kind it is plain output.
    Simple { out: String, kind: Option<RawEntryKind> },
    /// Edits to make.
    Edits { changes: Vec<TextEdit> },
}

/// The message type that gets sent from a runtime.
#[derive(Debug)]
pub struct RawEntry {
    pub frames: Vec<Frame>,
    pub inner: RawEntryInner,
}

} // verus!
