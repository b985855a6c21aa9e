//! Reading a document from lines and from text.

use vstd::prelude::*;
use crate::error::{IniError, ParseError};
use crate::ini::Ini;
use crate::line::{parse_line, Line};
use crate::lines::{crlf, cut_into_lines, lf, line_seq, split_on};
use crate::model::{lemma_error_stays, parse_lines, parse_prefix, Progress};
use crate::sorted::SortedMap;

verus! {

/// `r` is what reading `lines` gives: the document they describe, well
/// formed and bound to no file, or their first error.
pub open spec fn reads_as(r: Result<Ini, IniError>, lines: Seq<Seq<char>>) -> bool {
    match parse_lines(lines) {
        Ok(doc) => r is Ok && r->Ok_0.wf() && r->Ok_0@ == doc && r->Ok_0.config_file@.len() == 0,
        Err(e) => r == Err::<Ini, IniError>(IniError::Parse(e)),
    }
}

/// What is known of a file when a document is loaded from it.
#[derive(Clone, Debug, PartialEq, Eq)]
pub enum FileContent {
    /// There is no such file.
    Missing,
    /// The file is there and could not be read.
    Unreadable,
    /// The lines of the file.
    Lines(Vec<String>),
}

impl Ini {
    /// Reads a document from `lines`, in order. Reading stops at the first
    /// line that is in error.
    pub fn build_struct(lines: Vec<String>) -> (r: Result<Ini, IniError>)
        ensures
            reads_as(r, line_seq(lines@)),
    {
        let ghost all = line_seq(lines@);
        let mut doc = Ini { config_map: SortedMap::new(), config_file: String::new() };
        let mut in_section = false;
        let mut cur_sec = String::new();
        let mut i: usize = 0;
        assert(doc@ =~= Map::<Seq<char>, Map<Seq<char>, Seq<char>>>::empty());
        while i < lines.len()
            invariant
                i <= lines.len(),
                all == line_seq(lines@),
                doc.wf(),
                doc.config_file@.len() == 0,
                parse_prefix(all, i as int) == Ok::<Progress, ParseError>(
                    Progress {
                        doc: doc@,
                        current: if in_section {
                            Some(cur_sec@)
                        } else {
                            None
                        },
                    },
                ),
            decreases lines.len() - i,
        {
            assert(all[i as int] == lines@[i as int]@);
            match parse_line(lines[i].as_str()) {
                Line::Skip => {},
                Line::Header(name) => {
                    doc.open_section(name.as_str());
                    cur_sec = name;
                    in_section = true;
                },
                Line::Pair(key, value) => {
                    if !in_section {
                        proof {
                            lemma_error_stays(all, i + 1, all.len() as int);
                        }
                        return Err(IniError::Parse(ParseError::KvpBeforeSection));
                    }
                    doc.set(cur_sec.as_str(), key.as_str(), value.as_str());
                },
                Line::Unknown => {
                    proof {
                        lemma_error_stays(all, i + 1, all.len() as int);
                    }
                    return Err(IniError::Parse(ParseError::UnrecognizedLine));
                },
            }
            i += 1;
        }
        Ok(doc)
    }

    /// Reads a document from what cutting a text into lines gave: the lines,
    /// or nothing where the text could not be cut.
    pub fn from_lines(lines: Option<Vec<String>>) -> (r: Result<Ini, IniError>)
        ensures
            match lines {
                Some(l) => reads_as(r, line_seq(l@)),
                None => r == Err::<Ini, IniError>(IniError::IoFailure),
            },
    {
        match lines {
            Some(l) => Ini::build_struct(l),
            None => Err(IniError::IoFailure),
        }
    }

    /// Reads a document from `text`, cut into lines at the line ending of the
    /// platform: at line feeds, or at carriage return and line feed. Fails
    /// with `IoFailure` where the platform has neither ending. The document
    /// is bound to no file.
    pub fn from_string(text: String) -> (r: Result<Ini, IniError>)
        ensures
            r == Err::<Ini, IniError>(IniError::IoFailure) || reads_as(r, split_on(text@, lf()))
                || reads_as(r, split_on(text@, crlf())),
    {
        Ini::from_lines(cut_into_lines(text.as_str()))
    }

    /// Loads the document of the file at `location`, given what was found
    /// there. A missing file gives an empty document, a file that could not
    /// be read an error, and lines are read as a document. The document is
    /// bound to `location`.
    pub fn new(location: String, content: FileContent) -> (r: Result<Ini, IniError>)
        ensures
            match content {
                FileContent::Missing => r is Ok && r->Ok_0.wf() && r->Ok_0@ == Map::<
                    Seq<char>,
                    Map<Seq<char>, Seq<char>>,
                >::empty() && r->Ok_0.config_file == location,
                FileContent::Unreadable => r == Err::<Ini, IniError>(IniError::IoFailure),
                FileContent::Lines(lines) => match parse_lines(line_seq(lines@)) {
                    Ok(doc) => r is Ok && r->Ok_0.wf() && r->Ok_0@ == doc && r->Ok_0.config_file
                        == location,
                    Err(e) => r == Err::<Ini, IniError>(IniError::Parse(e)),
                },
            },
    {
        match content {
            FileContent::Missing => Ok(Ini::empty(location)),
            FileContent::Unreadable => Err(IniError::IoFailure),
            FileContent::Lines(lines) => match Ini::build_struct(lines) {
                Ok(doc) => {
                    let mut doc = doc;
                    doc.config_file = location;
                    Ok(doc)
                },
                Err(e) => Err(e),
            },
        }
    }
}

} // verus!
