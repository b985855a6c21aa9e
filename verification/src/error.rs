//! What can go wrong.

use vstd::prelude::*;

verus! {

/// Why a text is no INI document.
#[derive(Clone, Copy, Debug, PartialEq, Eq, Structural)]
pub enum ParseError {
    /// A `key=value` line stands before the first section header.
    KvpBeforeSection,
    /// A `key=value` line could not be split at its `=`.
    UnsplittableKvp,
    /// A line is neither blank, a comment, a section header nor `key=value`.
    UnrecognizedLine,
}

/// Why an operation on a document failed.
#[derive(Clone, Copy, Debug, PartialEq, Eq, Structural)]
pub enum IniError {
    /// The text could not be read.
    IoFailure,
    /// The text was read and is malformed.
    Parse(ParseError),
    /// The platform has no line ending that this library knows.
    UnsupportedPlatform,
    /// The document is bound to no file.
    NoBoundPath,
}

} // verus!
