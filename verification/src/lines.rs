//! Cutting a text into lines.

use vstd::prelude::*;

verus! {

/// A line feed, the line ending of Linux.
pub open spec fn lf() -> Seq<char> {
    seq!['\n']
}

/// Carriage return and line feed, the line ending of Windows.
pub open spec fn crlf() -> Seq<char> {
    seq!['\r', '\n']
}

/// `sep` stands in `s` at `i`.
pub open spec fn occurs_at(s: Seq<char>, sep: Seq<char>, i: int) -> bool {
    &&& 0 <= i
    &&& i + sep.len() <= s.len()
    &&& s.subrange(i, i + sep.len()) == sep
}

/// `sep` stands in `s` at `i` and nowhere before.
pub open spec fn first_occurrence(s: Seq<char>, sep: Seq<char>, i: int) -> bool {
    &&& occurs_at(s, sep, i)
    &&& forall|j: int| 0 <= j < i ==> !occurs_at(s, sep, j)
}

/// The pieces of `s` between the occurrences of `sep`, found from the left.
/// A text without `sep` is one piece; one that ends in `sep` has an empty
/// last piece.
pub open spec fn split_on(s: Seq<char>, sep: Seq<char>) -> Seq<Seq<char>>
    decreases s.len(),
{
    let i = choose|i: int| first_occurrence(s, sep, i);
    if sep.len() > 0 && first_occurrence(s, sep, i) {
        seq![s.subrange(0, i)] + split_on(s.subrange(i + sep.len(), s.len() as int), sep)
    } else {
        seq![s]
    }
}

/// A text with `sep` in it is cut at the first place of `sep`: the piece
/// before it, and then the pieces of what follows it.
pub proof fn lemma_split_at_first(s: Seq<char>, sep: Seq<char>, i: int)
    requires
        sep.len() > 0,
        first_occurrence(s, sep, i),
    ensures
        split_on(s, sep) == seq![s.subrange(0, i)] + split_on(
            s.subrange(i + sep.len(), s.len() as int),
            sep,
        ),
{
    let found = choose|k: int| first_occurrence(s, sep, k);
    if found < i {
        assert(!occurs_at(s, sep, found));
    } else if i < found {
        assert(!occurs_at(s, sep, i));
    }
}

/// A text without `sep` in it is one piece.
pub proof fn lemma_split_without(s: Seq<char>, sep: Seq<char>)
    requires
        forall|i: int| !occurs_at(s, sep, i),
    ensures
        split_on(s, sep) == seq![s],
{
}

/// The strings of `lines` as sequences of characters.
pub open spec fn line_seq(lines: Seq<String>) -> Seq<Seq<char>> {
    Seq::new(lines.len(), |i: int| lines[i]@)
}

/// Calls `read_lines_with_blank::read_lines_with_blank_from_str`, which cuts
/// `text` at the line ending of the platform it was built for: at line feeds
/// on Linux, at carriage return and line feed on Windows. On any other
/// platform it fails, and `None` stands for that. The contract claims that
/// the lines are the pieces between the occurrences of one of these two
/// endings, blank lines and an empty last piece included; which of the two is
/// not known here.
#[verifier::external_body]
pub(crate) fn cut_into_lines(text: &str) -> (r: Option<Vec<String>>)
    ensures
        match r {
            Some(lines) => line_seq(lines@) == split_on(text@, lf()) || line_seq(lines@)
                == split_on(text@, crlf()),
            None => true,
        },
{
    read_lines_with_blank::read_lines_with_blank_from_str(text).ok()
}

} // verus!
