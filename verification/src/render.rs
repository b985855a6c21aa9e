//! Writing a document out as text.

use vstd::prelude::*;
use crate::error::IniError;
use crate::ini::Ini;
use crate::lines::{crlf, lf};
use crate::sorted::SortedMap;
use crate::text::{compare, Rank};

verus! {

/// How a line ends.
#[derive(Clone, Copy, Debug, PartialEq, Eq, Structural)]
pub enum LineEnding {
    /// A line feed.
    Lf,
    /// Carriage return and line feed.
    CrLf,
}

impl LineEnding {
    /// The characters of the ending.
    pub open spec fn terminator(&self) -> Seq<char> {
        match self {
            LineEnding::Lf => lf(),
            LineEnding::CrLf => crlf(),
        }
    }

    /// The ending as a string.
    pub fn as_str(&self) -> (s: &'static str)
        ensures
            s@ == self.terminator(),
    {
        proof {
            reveal_strlit("\n");
            reveal_strlit("\r\n");
        }
        match self {
            LineEnding::Lf => {
                assert("\n"@ =~= lf());
                "\n"
            },
            LineEnding::CrLf => {
                assert("\r\n"@ =~= crlf());
                "\r\n"
            },
        }
    }

    /// The ending of the platform of that name: `"linux"` ends lines with a
    /// line feed, `"windows"` with carriage return and line feed. No other
    /// platform is known.
    pub fn for_platform(platform: &str) -> (r: Option<LineEnding>)
        ensures
            r == platform_ending(platform@),
    {
        proof {
            reveal_strlit("linux");
            reveal_strlit("windows");
        }
        match compare(platform, "linux") {
            Rank::Same => Some(LineEnding::Lf),
            _ => match compare(platform, "windows") {
                Rank::Same => Some(LineEnding::CrLf),
                _ => None,
            },
        }
    }
}

/// The line ending of the platform called `platform`, if it is known.
pub open spec fn platform_ending(platform: Seq<char>) -> Option<LineEnding> {
    if platform == "linux"@ {
        Some(LineEnding::Lf)
    } else if platform == "windows"@ {
        Some(LineEnding::CrLf)
    } else {
        None
    }
}

/// The header line of the section `name`.
pub open spec fn header_line(name: Seq<char>) -> Seq<char> {
    seq!['['] + name + seq![']']
}

/// The line of `key` and `value`.
pub open spec fn pair_line(key: Seq<char>, value: Seq<char>) -> Seq<char> {
    key + seq!['='] + value
}

/// The lines of the first `n` entries of `entries`, in stored order.
pub open spec fn entry_lines(entries: SortedMap<String>, n: int) -> Seq<Seq<char>>
    decreases n,
{
    if n <= 0 {
        Seq::empty()
    } else {
        entry_lines(entries, n - 1).push(
            pair_line(entries.keys@[n - 1]@, entries.values@[n - 1]@),
        )
    }
}

/// The header of `name` and under it the first `n` entries.
pub open spec fn section_lines(name: Seq<char>, entries: SortedMap<String>, n: int) -> Seq<
    Seq<char>,
> {
    seq![header_line(name)] + entry_lines(entries, n)
}

/// The lines of the first `n` sections of `sections`, in stored order, each
/// with all its entries.
pub open spec fn document_lines(sections: SortedMap<SortedMap<String>>, n: int) -> Seq<Seq<char>>
    decreases n,
{
    if n <= 0 {
        Seq::empty()
    } else {
        document_lines(sections, n - 1) + section_lines(
            sections.keys@[n - 1]@,
            sections.values@[n - 1],
            sections.values@[n - 1].keys@.len() as int,
        )
    }
}

/// `lines` in one text, each followed by `ending`.
pub open spec fn join(lines: Seq<Seq<char>>, ending: Seq<char>) -> Seq<char>
    decreases lines.len(),
{
    if lines.len() == 0 {
        Seq::empty()
    } else {
        join(lines.drop_last(), ending) + lines.last() + ending
    }
}

/// Joining one more line appends it and the ending.
pub proof fn lemma_join_push(lines: Seq<Seq<char>>, line: Seq<char>, ending: Seq<char>)
    ensures
        join(lines.push(line), ending) == join(lines, ending) + line + ending,
{
    assert(lines.push(line).drop_last() =~= lines);
}

/// Joining two runs of lines is joining each and putting the texts together.
pub proof fn lemma_join_concat(a: Seq<Seq<char>>, b: Seq<Seq<char>>, ending: Seq<char>)
    ensures
        join(a + b, ending) == join(a, ending) + join(b, ending),
    decreases b.len(),
{
    if b.len() == 0 {
        assert(a + b =~= a);
        assert(join(a, ending) + join(b, ending) =~= join(a, ending));
    } else {
        lemma_join_concat(a, b.drop_last(), ending);
        assert((a + b).drop_last() =~= a + b.drop_last());
        assert(join(a + b, ending) =~= join(a, ending) + join(b, ending));
    }
}

/// Appends the header of `name` and the lines of `entries` to `out`.
fn render_section(out: &mut String, name: &str, entries: &SortedMap<String>, ending: &str)
    requires
        entries.wf(),
    ensures
        final(out)@ == old(out)@ + join(
            section_lines(name@, *entries, entries.keys@.len() as int),
            ending@,
        ),
{
    proof {
        reveal_strlit("[");
        reveal_strlit("]");
        reveal_strlit("=");
    }
    out.append("[");
    out.append(name);
    out.append("]");
    out.append(ending);
    proof {
        lemma_join_push(Seq::empty(), header_line(name@), ending@);
        assert(section_lines(name@, *entries, 0) =~= Seq::<Seq<char>>::empty().push(
            header_line(name@),
        ));
        assert(out@ =~= old(out)@ + join(section_lines(name@, *entries, 0), ending@));
    }
    let n = entries.keys.len();
    let mut j: usize = 0;
    while j < n
        invariant
            entries.wf(),
            n == entries.keys@.len(),
            j <= n,
            "="@ == seq!['='],
            out@ == old(out)@ + join(section_lines(name@, *entries, j as int), ending@),
        decreases n - j,
    {
        let ghost before = out@;
        out.append(entries.keys[j].as_str());
        out.append("=");
        out.append(entries.values[j].as_str());
        out.append(ending);
        proof {
            let line = pair_line(entries.keys@[j as int]@, entries.values@[j as int]@);
            assert(section_lines(name@, *entries, j + 1) =~= section_lines(
                name@,
                *entries,
                j as int,
            ).push(line));
            lemma_join_push(section_lines(name@, *entries, j as int), line, ending@);
            assert(out@ =~= before + line + ending@);
            assert(out@ =~= old(out)@ + join(section_lines(name@, *entries, j + 1), ending@));
        }
        j += 1;
    }
}

impl Ini {
    /// The lines of the document: section after section in alphabetical
    /// order, each a header and then its entries in alphabetical order.
    pub open spec fn lines(&self) -> Seq<Seq<char>> {
        document_lines(self.config_map, self.config_map.keys@.len() as int)
    }

    /// The document as text, each line followed by `ending`. An empty
    /// document is the empty text.
    pub fn render(&self, ending: LineEnding) -> (out: String)
        requires
            self.wf(),
        ensures
            out@ == join(self.lines(), ending.terminator()),
            self.config_map.keys@.len() == 0 ==> out@.len() == 0,
    {
        let nl = ending.as_str();
        let mut out = String::new();
        let n = self.config_map.keys.len();
        let mut i: usize = 0;
        while i < n
            invariant
                self.wf(),
                n == self.config_map.keys@.len(),
                i <= n,
                nl@ == ending.terminator(),
                out@ == join(document_lines(self.config_map, i as int), nl@),
            decreases n - i,
        {
            proof {
                self.config_map.lemma_stored(i as int);
            }
            let ghost before = out@;
            let entries = &self.config_map.values[i];
            render_section(&mut out, self.config_map.keys[i].as_str(), entries, nl);
            proof {
                lemma_join_concat(
                    document_lines(self.config_map, i as int),
                    section_lines(
                        self.config_map.keys@[i as int]@,
                        *entries,
                        entries.keys@.len() as int,
                    ),
                    nl@,
                );
            }
            i += 1;
        }
        out
    }

    /// The document as text with the line ending of `platform`. Fails where
    /// the platform is neither `"linux"` nor `"windows"`.
    pub fn to_string(&self, platform: &str) -> (r: Result<String, IniError>)
        requires
            self.wf(),
        ensures
            match platform_ending(platform@) {
                Some(ending) => r is Ok && r->Ok_0@ == join(self.lines(), ending.terminator()),
                None => r == Err::<String, IniError>(IniError::UnsupportedPlatform),
            },
    {
        match LineEnding::for_platform(platform) {
            Some(ending) => Ok(self.render(ending)),
            None => Err(IniError::UnsupportedPlatform),
        }
    }

    /// What saving the document writes to the file at `config_file`: its
    /// text with the line ending of `platform`. Fails, before anything else
    /// is looked at, where the document is bound to no file.
    pub fn save(&self, platform: &str) -> (r: Result<String, IniError>)
        requires
            self.wf(),
        ensures
            self.config_file@.len() == 0 ==> r == Err::<String, IniError>(IniError::NoBoundPath),
            self.config_file@.len() != 0 ==> match platform_ending(platform@) {
                Some(ending) => r is Ok && r->Ok_0@ == join(self.lines(), ending.terminator()),
                None => r == Err::<String, IniError>(IniError::UnsupportedPlatform),
            },
    {
        if self.config_file.as_str().unicode_len() == 0 {
            return Err(IniError::NoBoundPath);
        }
        self.to_string(platform)
    }
}

} // verus!
