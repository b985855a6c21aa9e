//! What one line of an INI text says.

use vstd::prelude::*;
use crate::text::{find_char, find_last_char, first_index, last_index, trim, trimmed};

verus! {

/// One line, read.
#[derive(Clone, Debug, PartialEq, Eq)]
pub enum Line {
    /// Blank or a comment: it says nothing.
    Skip,
    /// `[name]`: a section starts.
    Header(String),
    /// `key=value`.
    Pair(String, String),
    /// None of these.
    Unknown,
}

/// A [`Line`] as a mathematical value.
pub enum LineView {
    Skip,
    Header(Seq<char>),
    Pair(Seq<char>, Seq<char>),
    Unknown,
}

impl View for Line {
    type V = LineView;

    open spec fn view(&self) -> LineView {
        match self {
            Line::Skip => LineView::Skip,
            Line::Header(name) => LineView::Header(name@),
            Line::Pair(key, value) => LineView::Pair(key@, value@),
            Line::Unknown => LineView::Unknown,
        }
    }
}

/// The name in a header line: the line without its leading `[` and without
/// its last `]`, trimmed.
pub open spec fn header_name(line: Seq<char>) -> Seq<char> {
    let p = last_index(line, ']');
    trim(line.subrange(1, p) + line.subrange(p + 1, line.len() as int))
}

/// What a line says. A line that is empty or starts with `#` or `;` says
/// nothing. One that starts with `[` and holds a `]` is a header. Any other
/// that holds a `=` is a pair, split at its first `=` with nothing trimmed.
pub open spec fn classify(line: Seq<char>) -> LineView {
    if line.len() == 0 || line[0] == '#' || line[0] == ';' {
        LineView::Skip
    } else if line[0] == '[' && line.contains(']') {
        LineView::Header(header_name(line))
    } else if line.contains('=') {
        let p = first_index(line, '=');
        LineView::Pair(line.subrange(0, p), line.subrange(p + 1, line.len() as int))
    } else {
        LineView::Unknown
    }
}

/// Reads one line.
pub fn parse_line(line: &str) -> (r: Line)
    ensures
        r@ == classify(line@),
{
    let n = line.unicode_len();
    if n == 0 {
        return Line::Skip;
    }
    let first = line.get_char(0);
    if first == '#' || first == ';' {
        return Line::Skip;
    }
    if first == '[' {
        if let Some(p) = find_last_char(line, ']') {
            let inner = String::from_str(line.substring_char(1, p)).concat(
                line.substring_char(p + 1, n),
            );
            return Line::Header(trimmed(inner.as_str()));
        }
    }
    match find_char(line, '=') {
        Some(p) => Line::Pair(
            String::from_str(line.substring_char(0, p)),
            String::from_str(line.substring_char(p + 1, n)),
        ),
        None => Line::Unknown,
    }
}

} // verus!
