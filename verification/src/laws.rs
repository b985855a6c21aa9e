//! What holds of the documents and of reading them, whatever the input.

use vstd::prelude::*;
use crate::error::ParseError;
use crate::ini::Ini;
use crate::line::classify;
use crate::model::{
    lemma_error_stays, lookup, parse_lines, parse_prefix, start, with_pair, Doc, Progress,
};
use crate::render::{document_lines, entry_lines};
use crate::sorted::SortedMap;
use crate::text::strip_leading_space;

verus! {

/// A lookup in a section that is not there, or of a key that its section
/// does not hold, finds nothing.
pub proof fn law_lookup_of_absent(doc: Doc, section: Seq<char>, key: Seq<char>)
    requires
        !doc.contains_key(section) || !doc[section].contains_key(key),
    ensures
        lookup(doc, section, key) is None,
{
}

/// A lookup of a value that is stored with a space in front gives what
/// follows that one space, further spaces included.
pub proof fn law_lookup_strips_one_space(
    doc: Doc,
    section: Seq<char>,
    key: Seq<char>,
    rest: Seq<char>,
)
    requires
        doc.contains_key(section),
        doc[section].contains_key(key),
        doc[section][key] == seq![' '] + rest,
    ensures
        lookup(doc, section, key) == Some(rest),
{
    assert((seq![' '] + rest).drop_first() =~= rest);
}

/// Once a section is removed, a lookup of any key in it finds nothing.
pub proof fn law_remove_section_then_lookup(doc: Doc, section: Seq<char>, key: Seq<char>)
    ensures
        lookup(doc.remove(section), section, key) is None,
{
}

/// Setting a key makes its section where the document lacks it, and a lookup
/// then finds the value that was set, without one leading space if it has
/// one.
pub proof fn law_set_then_lookup(
    doc: Doc,
    section: Seq<char>,
    key: Seq<char>,
    value: Seq<char>,
)
    ensures
        with_pair(doc, section, key, value).contains_key(section),
        lookup(with_pair(doc, section, key, value), section, key) == Some(
            strip_leading_space(value),
        ),
        value.len() == 0 || value[0] != ' ' ==> lookup(
            with_pair(doc, section, key, value),
            section,
            key,
        ) == Some(value),
{
}

/// While no header has been read and no line was in error, no section is
/// open; or a pair has already been refused.
proof fn lemma_before_first_header(lines: Seq<Seq<char>>, n: int)
    requires
        0 <= n <= lines.len(),
        forall|j: int|
            0 <= j < n ==> #[trigger] classify(lines[j]) is Skip || classify(lines[j]) is Pair,
    ensures
        parse_prefix(lines, n) == Ok::<Progress, ParseError>(start()) || parse_prefix(lines, n)
            == Err::<Progress, ParseError>(ParseError::KvpBeforeSection),
    decreases n,
{
    if n > 0 {
        lemma_before_first_header(lines, n - 1);
        assert(classify(lines[n - 1]) is Skip || classify(lines[n - 1]) is Pair);
    }
}

/// A pair that stands at `i`, before any header, with no unknown line before
/// it, makes the reading fail with `KvpBeforeSection`, whatever follows it.
pub proof fn law_pair_before_section(lines: Seq<Seq<char>>, i: int)
    requires
        0 <= i < lines.len(),
        classify(lines[i]) is Pair,
        forall|j: int|
            0 <= j < i ==> #[trigger] classify(lines[j]) is Skip || classify(lines[j]) is Pair,
    ensures
        parse_lines(lines) == Err::<Doc, ParseError>(ParseError::KvpBeforeSection),
{
    lemma_before_first_header(lines, i);
    assert(parse_prefix(lines, i + 1) == Err::<Progress, ParseError>(
        ParseError::KvpBeforeSection,
    ));
    lemma_error_stays(lines, i + 1, lines.len() as int);
}

/// No prefix of a reading fails for want of a `=` to split a pair at.
proof fn lemma_prefix_never_unsplittable(lines: Seq<Seq<char>>, n: int)
    ensures
        parse_prefix(lines, n) != Err::<Progress, ParseError>(ParseError::UnsplittableKvp),
    decreases n,
{
    if n > 0 {
        lemma_prefix_never_unsplittable(lines, n - 1);
    }
}

/// No reading fails for want of a `=` to split a pair at: a line is a pair
/// only where it holds one.
pub proof fn law_never_unsplittable(lines: Seq<Seq<char>>)
    ensures
        parse_lines(lines) != Err::<Doc, ParseError>(ParseError::UnsplittableKvp),
{
    lemma_prefix_never_unsplittable(lines, lines.len() as int);
}

/// Two sections hold the same keys with the same values at the same places.
pub open spec fn same_entries(s: SortedMap<String>, t: SortedMap<String>) -> bool {
    &&& s.keys@.len() == t.keys@.len()
    &&& forall|j: int|
        0 <= j < s.keys@.len() ==> (#[trigger] s.keys@[j])@ == t.keys@[j]@ && s.values@[j]@
            == t.values@[j]@
}

/// Two documents hold the same sections with the same entries at the same
/// places.
pub open spec fn same_layout(a: Ini, b: Ini) -> bool {
    &&& a.config_map.keys@.len() == b.config_map.keys@.len()
    &&& forall|i: int|
        0 <= i < a.config_map.keys@.len() ==> (#[trigger] a.config_map.keys@[i])@
            == b.config_map.keys@[i]@ && same_entries(
            a.config_map.values@[i],
            b.config_map.values@[i],
        )
}

/// Sections with the same layout are written as the same lines.
proof fn lemma_entry_lines_same(s: SortedMap<String>, t: SortedMap<String>, n: int)
    requires
        same_entries(s, t),
        0 <= n <= s.keys@.len(),
    ensures
        entry_lines(s, n) == entry_lines(t, n),
    decreases n,
{
    if n > 0 {
        lemma_entry_lines_same(s, t, n - 1);
        assert(s.keys@[n - 1]@ == t.keys@[n - 1]@);
    }
}

/// Documents with the same layout are written as the same lines.
proof fn lemma_document_lines_same(a: Ini, b: Ini, n: int)
    requires
        same_layout(a, b),
        0 <= n <= a.config_map.keys@.len(),
    ensures
        document_lines(a.config_map, n) == document_lines(b.config_map, n),
    decreases n,
{
    if n > 0 {
        lemma_document_lines_same(a, b, n - 1);
        assert(a.config_map.keys@[n - 1]@ == b.config_map.keys@[n - 1]@);
        lemma_entry_lines_same(
            a.config_map.values@[n - 1],
            b.config_map.values@[n - 1],
            a.config_map.values@[n - 1].keys@.len() as int,
        );
    }
}

/// The content decides the layout: two well-formed documents with the same
/// sections, keys and values hold them at the same places, and so are
/// written as the same lines.
pub proof fn law_same_content_same_layout(a: Ini, b: Ini)
    requires
        a.wf(),
        b.wf(),
        a@ == b@,
    ensures
        same_layout(a, b),
        a.lines() == b.lines(),
{
    let x = a.config_map;
    let y = b.config_map;
    assert forall|k: Seq<char>| x.has_key(k) <==> y.has_key(k) by {
        assert(a@.contains_key(k) == x@.contains_key(k));
        assert(b@.contains_key(k) == y@.contains_key(k));
        assert(x@.contains_key(k) == x.has_key(k));
        assert(y@.contains_key(k) == y.has_key(k));
    }
    x.lemma_same_keys(&y);
    assert forall|i: int| 0 <= i < x.keys@.len() implies same_entries(
        x.values@[i],
        y.values@[i],
    ) by {
        x.lemma_stored(i);
        y.lemma_stored(i);
        let name = x.keys@[i]@;
        let s = x.values@[i];
        let t = y.values@[i];
        assert(a@.contains_key(name) && b@.contains_key(name));
        assert(s.wf() && t.wf());
        assert(a@[name] == b@[name]);
        assert forall|k: Seq<char>| s.has_key(k) <==> t.has_key(k) by {
            assert(a@[name].contains_key(k) == s@.contains_key(k));
            assert(b@[name].contains_key(k) == t@.contains_key(k));
            assert(s@.contains_key(k) == s.has_key(k));
            assert(t@.contains_key(k) == t.has_key(k));
        }
        s.lemma_same_keys(&t);
        assert forall|j: int| 0 <= j < s.keys@.len() implies s.values@[j]@ == t.values@[j]@ by {
            s.lemma_stored(j);
            t.lemma_stored(j);
            assert(a@[name][s.keys@[j]@] == s.values@[j]@);
            assert(b@[name][t.keys@[j]@] == t.values@[j]@);
        }
    }
    assert(same_layout(a, b));
    lemma_document_lines_same(a, b, x.keys@.len() as int);
}

} // verus!
