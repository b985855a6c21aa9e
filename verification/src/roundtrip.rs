//! A document that was read, written out and read again is the same
//! document.

use vstd::prelude::*;
use crate::error::ParseError;
use crate::ini::{entries_view, Ini};
use crate::line::{classify, LineView};
use crate::model::{
    parse_lines, parse_prefix, start, step, with_pair, with_section, Doc, Entries, Progress,
};
use crate::lines::{
    first_occurrence, lemma_split_at_first, lemma_split_without, lf, occurs_at, split_on,
};
use crate::render::{
    document_lines, entry_lines, header_line, join, lemma_join_concat, lemma_join_push,
    pair_line, section_lines, LineEnding,
};
use crate::sorted::SortedMap;
use crate::text::{
    first_index, last_index, lemma_first_exists, lemma_last_exists, lemma_last_index,
    lemma_trim_end_shape, lemma_trim_idempotent, lemma_trim_start_shape, trim, trim_start,
};

verus! {

/// Each pair of `doc`, written as a line, reads as that pair.
pub open spec fn pairs_read_back(doc: Doc) -> bool {
    forall|s: Seq<char>, k: Seq<char>|
        #![trigger doc[s][k]]
        doc.contains_key(s) && doc[s].contains_key(k) ==> classify(pair_line(k, doc[s][k]))
            == LineView::Pair(k, doc[s][k])
}

/// Each section name of `doc` is trimmed.
pub open spec fn names_trimmed(doc: Doc) -> bool {
    forall|s: Seq<char>| #[trigger] doc.contains_key(s) ==> trim(s) == s
}

/// A trimmed name, written as a header, reads as that name.
pub proof fn lemma_name_reads_back(name: Seq<char>)
    requires
        trim(name) == name,
    ensures
        classify(header_line(name)) == LineView::Header(name),
{
    let line = header_line(name);
    let n = line.len() as int;
    assert(line[0] == '[');
    lemma_last_index(line, ']', n - 1);
    assert(line.subrange(1, n - 1) + line.subrange(n, n) =~= name);
}

/// A line that reads as a pair is that pair written as a line.
pub proof fn lemma_pair_reads_back(line: Seq<char>)
    requires
        classify(line) is Pair,
    ensures
        pair_line(classify(line)->Pair_0, classify(line)->Pair_1) == line,
        classify(pair_line(classify(line)->Pair_0, classify(line)->Pair_1)) == classify(line),
{
    lemma_first_exists(line, '=');
    assert(pair_line(classify(line)->Pair_0, classify(line)->Pair_1) =~= line);
}

/// Reading one more line keeps [`pairs_read_back`].
proof fn lemma_step_keeps_pairs(p: Progress, line: Seq<char>)
    requires
        pairs_read_back(p.doc),
        step(p, line) is Ok,
    ensures
        pairs_read_back(step(p, line)->Ok_0.doc),
{
    let after = step(p, line)->Ok_0.doc;
    match classify(line) {
        LineView::Skip => {},
        LineView::Header(name) => {
            assert forall|s: Seq<char>, k: Seq<char>|
                #![trigger after[s][k]]
                after.contains_key(s) && after[s].contains_key(k) implies classify(
                pair_line(k, after[s][k]),
            ) == LineView::Pair(k, after[s][k]) by {
                assert(after[s][k] == p.doc[s][k]);
            }
        },
        LineView::Pair(key, value) => {
            lemma_pair_reads_back(line);
            let section = p.current->Some_0;
            assert forall|s: Seq<char>, k: Seq<char>|
                #![trigger after[s][k]]
                after.contains_key(s) && after[s].contains_key(k) implies classify(
                pair_line(k, after[s][k]),
            ) == LineView::Pair(k, after[s][k]) by {
                if s == section && k == key {
                } else {
                    assert(after[s][k] == p.doc[s][k]);
                }
            }
        },
        LineView::Unknown => {},
    }
}

/// Whatever was read holds pairs that read back.
pub proof fn lemma_parsed_pairs(lines: Seq<Seq<char>>, n: int)
    requires
        n <= lines.len(),
        parse_prefix(lines, n) is Ok,
    ensures
        pairs_read_back(parse_prefix(lines, n)->Ok_0.doc),
    decreases n,
{
    if n > 0 {
        lemma_parsed_pairs(lines, n - 1);
        lemma_step_keeps_pairs(parse_prefix(lines, n - 1)->Ok_0, lines[n - 1]);
    }
}

/// Whatever was read has trimmed section names, and the open section is one
/// of them.
pub proof fn lemma_parsed_names(lines: Seq<Seq<char>>, n: int)
    requires
        n <= lines.len(),
        parse_prefix(lines, n) is Ok,
    ensures
        names_trimmed(parse_prefix(lines, n)->Ok_0.doc),
        parse_prefix(lines, n)->Ok_0.current is Some ==> parse_prefix(lines, n)->Ok_0.doc.contains_key(
            parse_prefix(lines, n)->Ok_0.current->Some_0,
        ),
    decreases n,
{
    if n > 0 {
        lemma_parsed_names(lines, n - 1);
        match classify(lines[n - 1]) {
            LineView::Header(name) => {
                let line = lines[n - 1];
                let p = last_index(line, ']');
                lemma_trim_idempotent(
                    line.subrange(1, p) + line.subrange(p + 1, line.len() as int),
                );
            },
            _ => {},
        }
    }
}

/// The first `n` entries of `m` as a map, each value seen through `f`.
pub open spec fn chain<T, U>(m: SortedMap<T>, f: spec_fn(T) -> U, n: int) -> Map<Seq<char>, U>
    decreases n,
{
    if n <= 0 {
        Map::empty()
    } else {
        chain(m, f, n - 1).insert(m.keys@[n - 1]@, f(m.values@[n - 1]))
    }
}

/// The first `n` entries as a map hold the first `n` keys, each with its own
/// value.
proof fn lemma_chain<T, U>(m: SortedMap<T>, f: spec_fn(T) -> U, n: int)
    requires
        m.wf(),
        0 <= n <= m.keys@.len(),
    ensures
        forall|k: Seq<char>| #[trigger]
            chain(m, f, n).contains_key(k) <==> exists|i: int| 0 <= i < n && m.stored_at(k, i),
        forall|i: int|
            0 <= i < n ==> chain(m, f, n)[#[trigger] m.keys@[i]@] == f(m.values@[i]),
    decreases n,
{
    if n > 0 {
        lemma_chain(m, f, n - 1);
        m.lemma_stored(n - 1);
        assert forall|k: Seq<char>| #[trigger]
            chain(m, f, n).contains_key(k) <==> exists|i: int|
                0 <= i < n && m.stored_at(k, i) by {
            if chain(m, f, n).contains_key(k) {
                if k == m.keys@[n - 1]@ {
                    assert(m.stored_at(k, n - 1));
                } else {
                    assert(chain(m, f, n - 1).contains_key(k));
                    let i = choose|i: int| 0 <= i < n - 1 && m.stored_at(k, i);
                    assert(0 <= i < n && m.stored_at(k, i));
                }
            }
            if exists|i: int| 0 <= i < n && m.stored_at(k, i) {
                let i = choose|i: int| 0 <= i < n && m.stored_at(k, i);
                if i < n - 1 {
                    assert(0 <= i < n - 1 && m.stored_at(k, i));
                    assert(chain(m, f, n - 1).contains_key(k));
                }
            }
        }
        assert forall|i: int| 0 <= i < n implies chain(m, f, n)[#[trigger] m.keys@[i]@] == f(
            m.values@[i],
        ) by {
            m.lemma_stored(i);
        }
    }
}

/// All entries as a map are the map that the view gives, seen through `f`.
proof fn lemma_chain_full<T, U>(m: SortedMap<T>, f: spec_fn(T) -> U)
    requires
        m.wf(),
    ensures
        chain(m, f, m.keys@.len() as int) == Map::new(
            |k: Seq<char>| m@.contains_key(k),
            |k: Seq<char>| f(m@[k]),
        ),
{
    let n = m.keys@.len() as int;
    lemma_chain(m, f, n);
    let full = Map::new(|k: Seq<char>| m@.contains_key(k), |k: Seq<char>| f(m@[k]));
    assert forall|k: Seq<char>| chain(m, f, n).contains_key(k) == full.contains_key(k) by {
        if chain(m, f, n).contains_key(k) {
            let i = choose|i: int| 0 <= i < n && m.stored_at(k, i);
            assert(m.stored_at(k, i));
        }
        if m@.contains_key(k) {
            let i = m.position(k);
            assert(0 <= i < n && m.stored_at(k, i));
        }
    }
    assert forall|k: Seq<char>| chain(m, f, n).contains_key(k) implies chain(m, f, n)[k]
        == full[k] by {
        let i = choose|i: int| 0 <= i < n && m.stored_at(k, i);
        m.lemma_stored(i);
    }
    assert(chain(m, f, n) =~= full);
}

/// The first `n` entries of a section as a map.
pub open spec fn entries_upto(section: SortedMap<String>, n: int) -> Entries {
    chain(section, |v: String| v@, n)
}

/// The first `n` sections of a document as a map.
pub open spec fn doc_upto(sections: SortedMap<SortedMap<String>>, n: int) -> Doc {
    chain(sections, |e: SortedMap<String>| entries_view(e), n)
}

/// All of `lines` read from the start.
pub open spec fn read(lines: Seq<Seq<char>>) -> Result<Progress, ParseError> {
    parse_prefix(lines, lines.len() as int)
}

/// Reading `n` lines looks at no line after them.
proof fn lemma_prefix_agrees(a: Seq<Seq<char>>, b: Seq<Seq<char>>, n: int)
    requires
        0 <= n <= a.len(),
        n <= b.len(),
        forall|j: int| 0 <= j < n ==> a[j] == b[j],
    ensures
        parse_prefix(a, n) == parse_prefix(b, n),
    decreases n,
{
    if n > 0 {
        lemma_prefix_agrees(a, b, n - 1);
    }
}

/// Reading lines and one more is reading the lines and then that one.
proof fn lemma_read_push(a: Seq<Seq<char>>, line: Seq<char>)
    ensures
        read(a.push(line)) == match read(a) {
            Ok(p) => step(p, line),
            Err(e) => Err(e),
        },
{
    lemma_prefix_agrees(a.push(line), a, a.len() as int);
}

/// Each entry of `section`, written as a line, reads as that entry.
spec fn entries_read_back(section: SortedMap<String>) -> bool {
    forall|i: int|
        0 <= i < section.keys@.len() ==> classify(
            pair_line(#[trigger] section.keys@[i]@, section.values@[i]@),
        ) == LineView::Pair(section.keys@[i]@, section.values@[i]@)
}

/// After `before`, the header of a new section and its first `j` entries
/// read as that section with those entries.
proof fn lemma_read_section(
    before: Seq<Seq<char>>,
    p: Progress,
    name: Seq<char>,
    section: SortedMap<String>,
    j: int,
)
    requires
        read(before) == Ok::<Progress, ParseError>(p),
        !p.doc.contains_key(name),
        section.wf(),
        0 <= j <= section.keys@.len(),
        classify(header_line(name)) == LineView::Header(name),
        entries_read_back(section),
    ensures
        read(before + section_lines(name, section, j)) == Ok::<Progress, ParseError>(
            Progress { doc: p.doc.insert(name, entries_upto(section, j)), current: Some(name) },
        ),
    decreases j,
{
    if j == 0 {
        assert(before + section_lines(name, section, 0) =~= before.push(header_line(name)));
        lemma_read_push(before, header_line(name));
        assert(with_section(p.doc, name) =~= p.doc.insert(name, entries_upto(section, 0)));
    } else {
        lemma_read_section(before, p, name, section, j - 1);
        let key = section.keys@[j - 1]@;
        let value = section.values@[j - 1]@;
        let so_far = before + section_lines(name, section, j - 1);
        assert(before + section_lines(name, section, j) =~= so_far.push(pair_line(key, value)));
        lemma_read_push(so_far, pair_line(key, value));
        let d = p.doc.insert(name, entries_upto(section, j - 1));
        assert(entries_upto(section, j) == entries_upto(section, j - 1).insert(key, value));
        assert(with_pair(d, name, key, value) =~= p.doc.insert(name, entries_upto(section, j)));
    }
}

/// The lines of the first `n` sections read as those sections.
proof fn lemma_read_document(sections: SortedMap<SortedMap<String>>, n: int)
    requires
        sections.wf(),
        0 <= n <= sections.keys@.len(),
        forall|i: int|
            0 <= i < sections.keys@.len() ==> (#[trigger] sections.values@[i]).wf()
                && entries_read_back(sections.values@[i]),
        forall|i: int|
            0 <= i < sections.keys@.len() ==> classify(
                header_line(#[trigger] sections.keys@[i]@),
            ) == LineView::Header(sections.keys@[i]@),
    ensures
        read(document_lines(sections, n)) == Ok::<Progress, ParseError>(
            Progress {
                doc: doc_upto(sections, n),
                current: if n == 0 {
                    None
                } else {
                    Some(sections.keys@[n - 1]@)
                },
            },
        ),
    decreases n,
{
    if n > 0 {
        lemma_read_document(sections, n - 1);
        let f = |e: SortedMap<String>| entries_view(e);
        let name = sections.keys@[n - 1]@;
        let section = sections.values@[n - 1];
        let p = read(document_lines(sections, n - 1))->Ok_0;
        lemma_chain(sections, f, n - 1);
        sections.lemma_stored(n - 1);
        if p.doc.contains_key(name) {
            let i = choose|i: int| 0 <= i < n - 1 && sections.stored_at(name, i);
            sections.lemma_stored(i);
        }
        assert(section.wf() && entries_read_back(section));
        let len = section.keys@.len() as int;
        lemma_read_section(document_lines(sections, n - 1), p, name, section, len);
        lemma_chain_full(section, |v: String| v@);
        assert(entries_upto(section, len) =~= entries_view(section));
    } else {
        assert(doc_upto(sections, 0) =~= start().doc);
    }
}

/// The round trip: where `lines` read as the document `doc`, the lines that
/// `doc` is written as read as the same document, section for section and
/// key for key.
pub proof fn law_round_trip(lines: Seq<Seq<char>>, doc: Ini)
    requires
        doc.wf(),
        parse_lines(lines) == Ok::<Doc, ParseError>(doc@),
    ensures
        parse_lines(doc.lines()) == Ok::<Doc, ParseError>(doc@),
{
    let sections = doc.config_map;
    let n = sections.keys@.len() as int;
    lemma_parsed_pairs(lines, lines.len() as int);
    lemma_parsed_names(lines, lines.len() as int);
    assert forall|i: int| 0 <= i < n implies (#[trigger] sections.values@[i]).wf()
        && entries_read_back(sections.values@[i]) by {
        sections.lemma_stored(i);
        let name = sections.keys@[i]@;
        let section = sections.values@[i];
        assert(sections@.contains_key(name));
        assert forall|j: int| 0 <= j < section.keys@.len() implies classify(
            pair_line(#[trigger] section.keys@[j]@, section.values@[j]@),
        ) == LineView::Pair(section.keys@[j]@, section.values@[j]@) by {
            section.lemma_stored(j);
            let key = section.keys@[j]@;
            assert(doc@[name][key] == section.values@[j]@);
        }
    }
    assert forall|i: int| 0 <= i < n implies classify(
        header_line(#[trigger] sections.keys@[i]@),
    ) == LineView::Header(sections.keys@[i]@) by {
        sections.lemma_stored(i);
        assert(doc@.contains_key(sections.keys@[i]@));
        lemma_name_reads_back(sections.keys@[i]@);
    }
    lemma_read_document(sections, n);
    lemma_chain_full(sections, |e: SortedMap<String>| entries_view(e));
    assert(doc_upto(sections, n) =~= doc@);
}

/// No line feed stands in `line`.
pub open spec fn no_line_feed(line: Seq<char>) -> bool {
    forall|i: int| 0 <= i < line.len() ==> line[i] != '\n'
}

/// No line feed stands in any of `lines`.
pub open spec fn all_no_line_feed(lines: Seq<Seq<char>>) -> bool {
    forall|i: int| 0 <= i < lines.len() ==> no_line_feed(#[trigger] lines[i])
}

/// `line`, written with `ending` after it, holds the ending at its end and
/// nowhere before.
pub open spec fn ends_once(line: Seq<char>, ending: Seq<char>) -> bool {
    first_occurrence(line + ending, ending, line.len() as int)
}

/// A line without a line feed, written with one after it, holds it at its
/// end only.
proof fn lemma_ends_once_lf(line: Seq<char>)
    requires
        no_line_feed(line),
    ensures
        ends_once(line, lf()),
{
    let at = line.len() as int;
    assert((line + lf()).subrange(at, at + 1) =~= lf());
    assert forall|j: int| 0 <= j < at implies !occurs_at(line + lf(), lf(), j) by {
        if occurs_at(line + lf(), lf(), j) {
            assert((line + lf()).subrange(j, j + 1)[0] == '\n');
            assert((line + lf())[j] == line[j]);
        }
    }
}

/// No piece of a text that is cut at line feeds holds a line feed.
proof fn lemma_pieces_no_line_feed(s: Seq<char>)
    ensures
        all_no_line_feed(split_on(s, lf())),
    decreases s.len(),
{
    if s.contains('\n') {
        lemma_first_exists(s, '\n');
        let k = first_index(s, '\n');
        assert(s.subrange(k, k + 1) =~= lf());
        assert forall|j: int| 0 <= j < k implies !occurs_at(s, lf(), j) by {
            if occurs_at(s, lf(), j) {
                assert(s.subrange(j, j + 1)[0] == '\n');
            }
        }
        lemma_split_at_first(s, lf(), k);
        let rest = s.subrange(k + 1, s.len() as int);
        lemma_pieces_no_line_feed(rest);
        let pieces = seq![s.subrange(0, k)] + split_on(rest, lf());
        assert forall|i: int| 0 <= i < pieces.len() implies no_line_feed(
            #[trigger] pieces[i],
        ) by {
            if i > 0 {
                assert(pieces[i] == split_on(rest, lf())[i - 1]);
            }
        }
    } else {
        assert forall|i: int| !occurs_at(s, lf(), i) by {
            if occurs_at(s, lf(), i) {
                assert(s.subrange(i, i + 1)[0] == '\n');
                assert(s[i] == '\n');
            }
        }
        lemma_split_without(s, lf());
    }
}

/// Trimming brings no line feed in.
proof fn lemma_trim_no_line_feed(s: Seq<char>)
    requires
        no_line_feed(s),
    ensures
        no_line_feed(trim(s)),
{
    lemma_trim_start_shape(s);
    lemma_trim_end_shape(trim_start(s));
}

/// No line feed stands in a section name, a key or a value of `doc`.
pub open spec fn doc_no_line_feed(doc: Doc) -> bool {
    &&& names_no_line_feed(doc)
    &&& pairs_no_line_feed(doc)
}

/// No line feed stands in a section name of `doc`.
pub open spec fn names_no_line_feed(doc: Doc) -> bool {
    forall|s: Seq<char>| #[trigger] doc.contains_key(s) ==> no_line_feed(s)
}

/// No line feed stands in a key or a value of `doc`.
pub open spec fn pairs_no_line_feed(doc: Doc) -> bool {
    forall|s: Seq<char>, k: Seq<char>|
        #![trigger doc[s][k]]
        doc.contains_key(s) && doc[s].contains_key(k) ==> pair_no_line_feed(k, doc[s][k])
}

/// No line feed stands in `key` or in `value`.
pub open spec fn pair_no_line_feed(key: Seq<char>, value: Seq<char>) -> bool {
    no_line_feed(key) && no_line_feed(value)
}

/// What is read from lines without line feeds holds none.
proof fn lemma_parsed_no_line_feed(lines: Seq<Seq<char>>, n: int)
    requires
        n <= lines.len(),
        all_no_line_feed(lines),
        parse_prefix(lines, n) is Ok,
    ensures
        doc_no_line_feed(parse_prefix(lines, n)->Ok_0.doc),
        parse_prefix(lines, n)->Ok_0.current is Some ==> parse_prefix(lines, n)->Ok_0.doc.contains_key(
            parse_prefix(lines, n)->Ok_0.current->Some_0,
        ),
    decreases n,
{
    if n > 0 {
        lemma_parsed_no_line_feed(lines, n - 1);
        let before = parse_prefix(lines, n - 1)->Ok_0;
        let after = parse_prefix(lines, n)->Ok_0.doc;
        let line = lines[n - 1];
        assert(no_line_feed(line));
        match classify(line) {
            LineView::Header(name) => {
                lemma_last_exists(line, ']');
                let p = last_index(line, ']');
                lemma_trim_no_line_feed(
                    line.subrange(1, p) + line.subrange(p + 1, line.len() as int),
                );
                assert forall|s: Seq<char>, k: Seq<char>|
                    #![trigger after[s][k]]
                    after.contains_key(s) && after[s].contains_key(k) implies pair_no_line_feed(
                    k,
                    after[s][k],
                ) by {
                    assert(after[s][k] == before.doc[s][k]);
                }
                assert(no_line_feed(name));
                assert forall|s: Seq<char>| #[trigger] after.contains_key(s) implies no_line_feed(
                    s,
                ) by {
                    if s != name {
                        assert(before.doc.contains_key(s));
                    }
                }
            },
            LineView::Pair(key, value) => {
                lemma_first_exists(line, '=');
                let section = before.current->Some_0;
                assert(no_line_feed(key) && no_line_feed(value));
                assert forall|s: Seq<char>, k: Seq<char>|
                    #![trigger after[s][k]]
                    after.contains_key(s) && after[s].contains_key(k) implies pair_no_line_feed(
                    k,
                    after[s][k],
                ) by {
                    if s == section && k == key {
                    } else {
                        assert(after[s][k] == before.doc[s][k]);
                    }
                }
                assert forall|s: Seq<char>| #[trigger] after.contains_key(s) implies no_line_feed(
                    s,
                ) by {
                    assert(before.doc.contains_key(s));
                }
            },
            _ => {},
        }
    }
}

/// No line feed stands in a key or a value of `section`.
spec fn entries_no_line_feed(section: SortedMap<String>) -> bool {
    forall|j: int|
        0 <= j < section.keys@.len() ==> no_line_feed(#[trigger] section.keys@[j]@)
            && no_line_feed(section.values@[j]@)
}

/// Entries without line feeds are written as lines without line feeds.
proof fn lemma_entry_lines_no_line_feed(section: SortedMap<String>, n: int)
    requires
        section.wf(),
        0 <= n <= section.keys@.len(),
        entries_no_line_feed(section),
    ensures
        all_no_line_feed(entry_lines(section, n)),
    decreases n,
{
    if n > 0 {
        lemma_entry_lines_no_line_feed(section, n - 1);
        assert(no_line_feed(section.keys@[n - 1]@));
        assert(no_line_feed(pair_line(section.keys@[n - 1]@, section.values@[n - 1]@)));
    }
}

/// Sections without line feeds are written as lines without line feeds.
proof fn lemma_document_lines_no_line_feed(sections: SortedMap<SortedMap<String>>, n: int)
    requires
        0 <= n <= sections.keys@.len(),
        sections.wf(),
        forall|i: int|
            0 <= i < sections.keys@.len() ==> no_line_feed(#[trigger] sections.keys@[i]@)
                && sections.values@[i].wf() && entries_no_line_feed(sections.values@[i]),
    ensures
        all_no_line_feed(document_lines(sections, n)),
    decreases n,
{
    if n > 0 {
        lemma_document_lines_no_line_feed(sections, n - 1);
        let name = sections.keys@[n - 1]@;
        let section = sections.values@[n - 1];
        assert(no_line_feed(name));
        lemma_entry_lines_no_line_feed(section, section.keys@.len() as int);
        assert(no_line_feed(header_line(name)));
        let under = section_lines(name, section, section.keys@.len() as int);
        assert forall|i: int| 0 <= i < under.len() implies no_line_feed(#[trigger] under[i]) by {
            if i > 0 {
                assert(under[i] == entry_lines(section, section.keys@.len() as int)[i - 1]);
            }
        }
        let before = document_lines(sections, n - 1);
        assert forall|i: int| 0 <= i < (before + under).len() implies no_line_feed(
            #[trigger] (before + under)[i],
        ) by {
            if i < before.len() {
                assert((before + under)[i] == before[i]);
            } else {
                assert((before + under)[i] == under[i - before.len()]);
            }
        }
    }
}

/// Joined lines are the first line, the ending, and the other lines joined.
proof fn lemma_join_first(lines: Seq<Seq<char>>, ending: Seq<char>)
    requires
        lines.len() > 0,
    ensures
        join(lines, ending) == lines[0] + ending + join(lines.drop_first(), ending),
{
    let head = Seq::<Seq<char>>::empty().push(lines[0]);
    assert(lines =~= head + lines.drop_first());
    lemma_join_concat(head, lines.drop_first(), ending);
    lemma_join_push(Seq::empty(), lines[0], ending);
    assert(join(head, ending) =~= lines[0] + ending);
}

/// In a line that holds the ending at its end only, followed by more text,
/// the ending stands first right after the line.
proof fn lemma_ending_after_line(line: Seq<char>, ending: Seq<char>, more: Seq<char>)
    requires
        ends_once(line, ending),
    ensures
        first_occurrence(line + ending + more, ending, line.len() as int),
        (line + ending + more).subrange(0, line.len() as int) == line,
        (line + ending + more).subrange(
            (line.len() + ending.len()) as int,
            (line + ending + more).len() as int,
        ) == more,
{
    let text = line + ending + more;
    let at = line.len() as int;
    assert((line + ending).subrange(at, at + ending.len()) =~= ending);
    assert(text.subrange(at, at + ending.len()) =~= ending);
    assert forall|j: int| 0 <= j < at implies !occurs_at(text, ending, j) by {
        if occurs_at(text, ending, j) {
            assert((line + ending).subrange(j, j + ending.len()) =~= text.subrange(
                j,
                j + ending.len(),
            ));
            assert(occurs_at(line + ending, ending, j));
        }
    }
    assert(text.subrange(0, at) =~= line);
    assert(text.subrange(at + ending.len(), text.len() as int) =~= more);
}

/// Lines that hold the ending at their end only, joined with the ending and
/// cut at it, are those lines and an empty one after them.
pub proof fn lemma_split_join(lines: Seq<Seq<char>>, ending: Seq<char>)
    requires
        ending.len() > 0,
        forall|i: int| 0 <= i < lines.len() ==> ends_once(#[trigger] lines[i], ending),
    ensures
        split_on(join(lines, ending), ending) == lines.push(Seq::empty()),
    decreases lines.len(),
{
    if lines.len() == 0 {
        assert(join(lines, ending) =~= Seq::<char>::empty());
        assert forall|i: int| !occurs_at(join(lines, ending), ending, i) by {}
        lemma_split_without(join(lines, ending), ending);
        assert(seq![join(lines, ending)] =~= lines.push(Seq::empty()));
    } else {
        let rest = lines.drop_first();
        lemma_join_first(lines, ending);
        assert forall|i: int| 0 <= i < rest.len() implies ends_once(
            #[trigger] rest[i],
            ending,
        ) by {
            assert(rest[i] == lines[i + 1]);
        }
        lemma_split_join(rest, ending);
        assert(ends_once(lines[0], ending));
        lemma_ending_after_line(lines[0], ending, join(rest, ending));
        lemma_split_at_first(join(lines, ending), ending, lines[0].len() as int);
        assert(seq![lines[0]] + rest.push(Seq::empty()) =~= lines.push(Seq::empty()));
    }
}

/// An empty line at the end changes nothing.
proof fn lemma_empty_last_line(lines: Seq<Seq<char>>)
    ensures
        parse_lines(lines.push(Seq::empty())) == parse_lines(lines),
{
    lemma_read_push(lines, Seq::empty());
}

/// The round trip through text with any ending: where `lines` read as the
/// document `doc`, the text that `doc` is written as, cut at the ending it
/// was written with, reads as the same document. It is stated for the
/// documents whose lines hold that ending nowhere: a line with the ending in
/// it is cut in two.
pub proof fn law_text_round_trip_with(lines: Seq<Seq<char>>, doc: Ini, ending: LineEnding)
    requires
        doc.wf(),
        parse_lines(lines) == Ok::<Doc, ParseError>(doc@),
        forall|i: int|
            0 <= i < doc.lines().len() ==> ends_once(
                #[trigger] doc.lines()[i],
                ending.terminator(),
            ),
    ensures
        parse_lines(split_on(join(doc.lines(), ending.terminator()), ending.terminator()))
            == Ok::<Doc, ParseError>(doc@),
{
    law_round_trip(lines, doc);
    lemma_split_join(doc.lines(), ending.terminator());
    lemma_empty_last_line(doc.lines());
}

/// The round trip through text: where `text`, cut at line feeds, reads as
/// the document `doc`, the text that `doc` is written as with line feeds,
/// cut at line feeds, reads as the same document.
pub proof fn law_text_round_trip(text: Seq<char>, doc: Ini)
    requires
        doc.wf(),
        parse_lines(split_on(text, lf())) == Ok::<Doc, ParseError>(doc@),
    ensures
        parse_lines(split_on(join(doc.lines(), lf()), lf())) == Ok::<Doc, ParseError>(doc@),
{
    let lines = split_on(text, lf());
    let sections = doc.config_map;
    lemma_pieces_no_line_feed(text);
    lemma_parsed_no_line_feed(lines, lines.len() as int);
    assert forall|i: int| 0 <= i < sections.keys@.len() implies no_line_feed(
        #[trigger] sections.keys@[i]@,
    ) && sections.values@[i].wf() && entries_no_line_feed(sections.values@[i]) by {
        sections.lemma_stored(i);
        let name = sections.keys@[i]@;
        let section = sections.values@[i];
        assert(doc@.contains_key(name));
        assert forall|j: int| 0 <= j < section.keys@.len() implies no_line_feed(
            #[trigger] section.keys@[j]@,
        ) && no_line_feed(section.values@[j]@) by {
            section.lemma_stored(j);
            assert(doc@[name][section.keys@[j]@] == section.values@[j]@);
            assert(pair_no_line_feed(section.keys@[j]@, doc@[name][section.keys@[j]@]));
        }
    }
    lemma_document_lines_no_line_feed(sections, sections.keys@.len() as int);
    assert forall|i: int| 0 <= i < doc.lines().len() implies ends_once(
        #[trigger] doc.lines()[i],
        LineEnding::Lf.terminator(),
    ) by {
        lemma_ends_once_lf(doc.lines()[i]);
    }
    law_text_round_trip_with(lines, doc, LineEnding::Lf);
}

} // verus!
