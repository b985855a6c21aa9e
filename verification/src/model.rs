//! The mathematical model of a document, and of reading one from lines.

use vstd::prelude::*;
use crate::error::ParseError;
use crate::line::{classify, LineView};
use crate::text::strip_leading_space;

verus! {

/// The keys of one section with their values.
pub type Entries = Map<Seq<char>, Seq<char>>;

/// A document: the section names with their entries.
pub type Doc = Map<Seq<char>, Entries>;

/// What a lookup of `key` in `section` gives: the stored value without one
/// leading space.
pub open spec fn lookup(doc: Doc, section: Seq<char>, key: Seq<char>) -> Option<Seq<char>> {
    if doc.contains_key(section) && doc[section].contains_key(key) {
        Some(strip_leading_space(doc[section][key]))
    } else {
        None
    }
}

/// The entries of `section`, none if the document lacks it.
pub open spec fn entries_of(doc: Doc, section: Seq<char>) -> Entries {
    if doc.contains_key(section) {
        doc[section]
    } else {
        Map::empty()
    }
}

/// The document with `section` in it: as it is, or with a new empty one.
pub open spec fn with_section(doc: Doc, section: Seq<char>) -> Doc {
    doc.insert(section, entries_of(doc, section))
}

/// The document with `key` set to `value` in `section`.
pub open spec fn with_pair(doc: Doc, section: Seq<char>, key: Seq<char>, value: Seq<char>) -> Doc {
    doc.insert(section, entries_of(doc, section).insert(key, value))
}

/// The document without `key` in `section`; nothing is made.
pub open spec fn without_pair(doc: Doc, section: Seq<char>, key: Seq<char>) -> Doc {
    if doc.contains_key(section) {
        doc.insert(section, doc[section].remove(key))
    } else {
        doc
    }
}

/// How far a reading has come: the document so far and the open section.
pub struct Progress {
    pub doc: Doc,
    pub current: Option<Seq<char>>,
}

/// The state in which a reading starts: nothing read, no section open.
pub open spec fn start() -> Progress {
    Progress { doc: Map::empty(), current: None }
}

/// One line read in state `p`. A header opens its section, and keeps what a
/// section of that name already holds. A pair goes into the open section and
/// is an error where none is open. An unknown line is an error.
pub open spec fn step(p: Progress, line: Seq<char>) -> Result<Progress, ParseError> {
    match classify(line) {
        LineView::Skip => Ok(p),
        LineView::Header(name) => Ok(
            Progress { doc: with_section(p.doc, name), current: Some(name) },
        ),
        LineView::Pair(key, value) => match p.current {
            Some(section) => Ok(
                Progress { doc: with_pair(p.doc, section, key, value), current: p.current },
            ),
            None => Err(ParseError::KvpBeforeSection),
        },
        LineView::Unknown => Err(ParseError::UnrecognizedLine),
    }
}

/// The first `n` lines read in order; the first error ends the reading.
pub open spec fn parse_prefix(lines: Seq<Seq<char>>, n: int) -> Result<Progress, ParseError>
    decreases n,
{
    if n <= 0 {
        Ok(start())
    } else {
        match parse_prefix(lines, n - 1) {
            Ok(p) => step(p, lines[n - 1]),
            Err(e) => Err(e),
        }
    }
}

/// The document that `lines` describe, or the first error in them.
pub open spec fn parse_lines(lines: Seq<Seq<char>>) -> Result<Doc, ParseError> {
    match parse_prefix(lines, lines.len() as int) {
        Ok(p) => Ok(p.doc),
        Err(e) => Err(e),
    }
}

/// An error, once met, is the result whatever follows.
pub proof fn lemma_error_stays(lines: Seq<Seq<char>>, n: int, m: int)
    requires
        parse_prefix(lines, n) is Err,
        n <= m,
    ensures
        parse_prefix(lines, m) == parse_prefix(lines, n),
    decreases m - n,
{
    if n < m {
        lemma_error_stays(lines, n, m - 1);
    }
}

} // verus!
