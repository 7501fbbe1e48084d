//! Positions, ranges and the values the queries hand back.

use vstd::prelude::*;

verus! {

/// A range of a document: zero-based lines and columns, the end column
/// excluded. Lines are the pieces between line feeds, so a carriage return
/// before a line feed is the last character of its line. Columns count
/// characters (Unicode scalar values), which is what every scan of this
/// library indexes by; a client that counts UTF-16 code units converts at
/// its edge, where it knows the text.
#[derive(Clone, Copy, PartialEq, Eq, Structural, Debug)]
pub struct SourceRange {
    pub start_line: usize,
    pub start_col: usize,
    pub end_line: usize,
    pub end_col: usize,
}

impl SourceRange {
    /// The range of `len` characters from column `col` of line `line`.
    pub open spec fn on_line(line: int, col: int, len: int) -> SourceRange {
        SourceRange {
            start_line: line as usize,
            start_col: col as usize,
            end_line: line as usize,
            end_col: (col + len) as usize,
        }
    }
}

/// A range in a named document.
#[derive(Clone, Debug)]
pub struct Location {
    pub uri: String,
    pub range: SourceRange,
}

/// The replacement of the text of `range` by `new_text`.
#[derive(Clone, Debug)]
pub struct TextEdit {
    pub range: SourceRange,
    pub new_text: String,
}

/// An error found in a document, with where it is and a short message.
#[derive(Clone, Debug)]
pub struct Diagnostic {
    pub range: SourceRange,
    pub message: String,
}

} // verus!
