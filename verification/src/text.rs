//! Character-level helpers: the order on strings, searching and trimming.

use vstd::prelude::*;

verus! {

/// How one string stands to another in the order that sorts names and keys.
#[derive(Clone, Copy, Debug, PartialEq, Eq, Structural)]
pub enum Rank {
    Before,
    Same,
    After,
}

/// `a` and `b` agree on their first `i` characters.
pub open spec fn common_prefix(a: Seq<char>, b: Seq<char>, i: int) -> bool {
    &&& 0 <= i <= a.len()
    &&& i <= b.len()
    &&& forall|j: int| 0 <= j < i ==> a[j] == b[j]
}

/// `a` and `b` part ways at `i`, and `a` is the smaller there: either `a`
/// ends at `i` and `b` goes on, or `a` has the smaller character.
pub open spec fn less_at(a: Seq<char>, b: Seq<char>, i: int) -> bool {
    &&& common_prefix(a, b, i)
    &&& i < b.len()
    &&& i < a.len() ==> (a[i] as u32) < (b[i] as u32)
}

/// The lexicographic order by code point, which is the order of `str`.
pub open spec fn lex_lt(a: Seq<char>, b: Seq<char>) -> bool {
    exists|i: int| less_at(a, b, i)
}

/// Nothing is smaller than itself.
pub proof fn lemma_lex_irreflexive(a: Seq<char>)
    ensures
        !lex_lt(a, a),
{
}

/// Of two strings at most one is smaller than the other.
pub proof fn lemma_lex_asymmetric(a: Seq<char>, b: Seq<char>)
    requires
        lex_lt(a, b),
    ensures
        !lex_lt(b, a),
{
    let i = choose|i: int| less_at(a, b, i);
    if lex_lt(b, a) {
        let k = choose|k: int| less_at(b, a, k);
        if i < k {
            assert(b[i] == a[i]);
        } else if k < i {
            assert(a[k] == b[k]);
        }
    }
}

/// The order is transitive.
pub proof fn lemma_lex_transitive(a: Seq<char>, b: Seq<char>, c: Seq<char>)
    requires
        lex_lt(a, b),
        lex_lt(b, c),
    ensures
        lex_lt(a, c),
{
    let i = choose|i: int| less_at(a, b, i);
    let k = choose|k: int| less_at(b, c, k);
    let m = if i <= k { i } else { k };
    assert forall|j: int| 0 <= j < m implies a[j] == c[j] by {
        assert(a[j] == b[j]);
        assert(b[j] == c[j]);
    }
    if m < k {
        assert(b[m] == c[m]);
    }
    if m < i {
        assert(a[m] == b[m]);
    }
    assert(less_at(a, c, m));
}

/// Two characters that differ have code points that differ.
proof fn lemma_codes_differ(x: char, y: char)
    requires
        x != y,
    ensures
        x as u32 != y as u32,
{
}

/// The characters of `s`, to be reached by index.
pub fn chars_of(s: &str) -> (v: Vec<char>)
    ensures
        v@ == s@,
{
    let mut v: Vec<char> = Vec::new();
    for c in it: s.chars()
        invariant
            it.seq() == s@,
            v@ == s@.subrange(0, it.index() as int),
    {
        v.push(c);
    }
    assert(v@ =~= s@);
    v
}

/// Compares two strings character by character.
pub fn compare(a: &str, b: &str) -> (r: Rank)
    ensures
        r == Rank::Before <==> lex_lt(a@, b@),
        r == Rank::Same <==> a@ == b@,
        r == Rank::After <==> lex_lt(b@, a@),
{
    let left = chars_of(a);
    let right = chars_of(b);
    let n = left.len();
    let m = right.len();
    let mut i: usize = 0;
    while i < n && i < m
        invariant
            left@ == a@,
            right@ == b@,
            n == a@.len(),
            m == b@.len(),
            common_prefix(a@, b@, i as int),
        decreases n - i,
    {
        let x = left[i];
        let y = right[i];
        assert(x == a@[i as int] && y == b@[i as int]);
        if x != y {
            if (x as u32) < (y as u32) {
                proof {
                    assert(less_at(a@, b@, i as int));
                    lemma_lex_asymmetric(a@, b@);
                }
                return Rank::Before;
            } else {
                proof {
                    lemma_codes_differ(x, y);
                    assert(less_at(b@, a@, i as int));
                    lemma_lex_asymmetric(b@, a@);
                }
                return Rank::After;
            }
        }
        i += 1;
    }
    if n == m {
        proof {
            assert(a@ =~= b@);
            lemma_lex_irreflexive(a@);
        }
        Rank::Same
    } else if n < m {
        proof {
            assert(less_at(a@, b@, i as int));
            lemma_lex_asymmetric(a@, b@);
        }
        Rank::Before
    } else {
        proof {
            assert(less_at(b@, a@, i as int));
            lemma_lex_asymmetric(b@, a@);
        }
        Rank::After
    }
}

/// The characters that Unicode counts as white space.
pub open spec fn is_space(c: char) -> bool {
    let n = c as u32;
    ||| 0x09 <= n <= 0x0D
    ||| n == 0x20
    ||| n == 0x85
    ||| n == 0xA0
    ||| n == 0x1680
    ||| 0x2000 <= n <= 0x200A
    ||| n == 0x2028
    ||| n == 0x2029
    ||| n == 0x202F
    ||| n == 0x205F
    ||| n == 0x3000
}

/// Whether `c` is white space.
pub fn is_whitespace(c: char) -> (b: bool)
    ensures
        b == is_space(c),
{
    let n: u32 = c as u32;
    (0x09 <= n && n <= 0x0D) || n == 0x20 || n == 0x85 || n == 0xA0 || n == 0x1680 || (0x2000 <= n
        && n <= 0x200A) || n == 0x2028 || n == 0x2029 || n == 0x202F || n == 0x205F || n == 0x3000
}

/// `s` without the white space at its start.
pub open spec fn trim_start(s: Seq<char>) -> Seq<char>
    decreases s.len(),
{
    if s.len() > 0 && is_space(s[0]) {
        trim_start(s.drop_first())
    } else {
        s
    }
}

/// `s` without the white space at its end.
pub open spec fn trim_end(s: Seq<char>) -> Seq<char>
    decreases s.len(),
{
    if s.len() > 0 && is_space(s.last()) {
        trim_end(s.drop_last())
    } else {
        s
    }
}

/// `s` without the white space at either end.
pub open spec fn trim(s: Seq<char>) -> Seq<char> {
    trim_end(trim_start(s))
}

/// A copy of `s` without the white space at either end.
pub fn trimmed(s: &str) -> (r: String)
    ensures
        r@ == trim(s@),
{
    let chars = chars_of(s);
    let n = chars.len();
    let mut a: usize = 0;
    assert(s@.subrange(0, n as int) =~= s@);
    while a < n && is_whitespace(chars[a])
        invariant
            chars@ == s@,
            n == s@.len(),
            a <= n,
            trim_start(s@) == trim_start(s@.subrange(a as int, n as int)),
        decreases n - a,
    {
        proof {
            assert(s@.subrange(a as int, n as int).drop_first() =~= s@.subrange(a + 1, n as int));
        }
        a += 1;
    }
    let mut b: usize = n;
    while b > a && is_whitespace(chars[b - 1])
        invariant
            chars@ == s@,
            n == s@.len(),
            a <= b <= n,
            trim(s@) == trim_end(s@.subrange(a as int, b as int)),
        decreases b,
    {
        proof {
            assert(s@.subrange(a as int, b as int).drop_last() =~= s@.subrange(a as int, b - 1));
        }
        b -= 1;
    }
    String::from_str(s.substring_char(a, b))
}

/// `c` stands at `i` in `s` and nowhere before.
pub open spec fn first_at(s: Seq<char>, c: char, i: int) -> bool {
    &&& 0 <= i < s.len()
    &&& s[i] == c
    &&& forall|j: int| 0 <= j < i ==> s[j] != c
}

/// The place of the first `c` in `s`, where `s` holds one.
pub open spec fn first_index(s: Seq<char>, c: char) -> int {
    choose|i: int| first_at(s, c, i)
}

/// A string has one first place of `c` at most.
pub proof fn lemma_first_index(s: Seq<char>, c: char, i: int)
    requires
        first_at(s, c, i),
    ensures
        first_index(s, c) == i,
        s.contains(c),
{
    let k = first_index(s, c);
    if k < i {
        assert(s[k] != c);
    } else if i < k {
        assert(s[i] != c);
    }
}

/// The place of the first `c` in `s`.
pub fn find_char(s: &str, c: char) -> (r: Option<usize>)
    ensures
        match r {
            Some(i) => first_at(s@, c, i as int) && first_index(s@, c) == i,
            None => !s@.contains(c),
        },
{
    let chars = chars_of(s);
    let n = chars.len();
    let mut i: usize = 0;
    while i < n
        invariant
            chars@ == s@,
            n == s@.len(),
            i <= n,
            forall|j: int| 0 <= j < i ==> s@[j] != c,
        decreases n - i,
    {
        if chars[i] == c {
            proof {
                lemma_first_index(s@, c, i as int);
            }
            return Some(i);
        }
        i += 1;
    }
    None
}

/// `s` without one space at its start, if it starts with one.
pub open spec fn strip_leading_space(s: Seq<char>) -> Seq<char> {
    if s.len() > 0 && s[0] == ' ' {
        s.drop_first()
    } else {
        s
    }
}

/// A copy of `s` without one space at its start, if it starts with one.
pub fn without_leading_space(s: &str) -> (r: String)
    ensures
        r@ == strip_leading_space(s@),
{
    let n = s.unicode_len();
    if n > 0 && s.get_char(0) == ' ' {
        assert(s@.drop_first() =~= s@.subrange(1, n as int));
        String::from_str(s.substring_char(1, n))
    } else {
        String::from_str(s)
    }
}

/// From `i` on, where no `c` stands before `i` and one stands at `i` or
/// later, there is a first place of `c`.
proof fn lemma_first_from(s: Seq<char>, c: char, i: int)
    requires
        0 <= i,
        forall|j: int| 0 <= j < i ==> s[j] != c,
        exists|w: int| i <= w < s.len() && s[w] == c,
    ensures
        exists|k: int| first_at(s, c, k),
    decreases s.len() - i,
{
    let w = choose|w: int| i <= w < s.len() && s[w] == c;
    if s[i] == c {
        assert(first_at(s, c, i));
    } else {
        assert(i + 1 <= w < s.len() && s[w] == c);
        lemma_first_from(s, c, i + 1);
    }
}

/// A string that holds `c` has a first place of it.
pub proof fn lemma_first_exists(s: Seq<char>, c: char)
    requires
        s.contains(c),
    ensures
        first_at(s, c, first_index(s, c)),
{
    let w = choose|w: int| 0 <= w < s.len() && s[w] == c;
    assert(0 <= w < s.len() && s[w] == c);
    lemma_first_from(s, c, 0);
}

/// What is left when the end of `s` is trimmed: a start of `s` that does not
/// end in white space, and not empty where `s` starts with something else
/// than white space.
pub proof fn lemma_trim_end_shape(s: Seq<char>)
    ensures
        trim_end(s).len() <= s.len(),
        trim_end(s) == s.subrange(0, trim_end(s).len() as int),
        trim_end(s).len() == 0 || !is_space(trim_end(s).last()),
        s.len() > 0 && !is_space(s[0]) ==> trim_end(s).len() > 0,
    decreases s.len(),
{
    if s.len() > 0 && is_space(s.last()) {
        lemma_trim_end_shape(s.drop_last());
        assert(trim_end(s) =~= s.subrange(0, trim_end(s).len() as int));
    } else {
        assert(s =~= s.subrange(0, s.len() as int));
    }
}

/// What is left when the start of `s` is trimmed: an end of `s` that does
/// not start with white space.
pub proof fn lemma_trim_start_shape(s: Seq<char>)
    ensures
        trim_start(s).len() <= s.len(),
        trim_start(s) == s.subrange(s.len() - trim_start(s).len(), s.len() as int),
        trim_start(s).len() == 0 || !is_space(trim_start(s)[0]),
    decreases s.len(),
{
    if s.len() > 0 && is_space(s[0]) {
        lemma_trim_start_shape(s.drop_first());
        assert(trim_start(s) =~= s.subrange(s.len() - trim_start(s).len(), s.len() as int));
    } else {
        assert(s =~= s.subrange(0, s.len() as int));
    }
}

/// To trim what is trimmed changes nothing.
pub proof fn lemma_trim_idempotent(s: Seq<char>)
    ensures
        trim(trim(s)) == trim(s),
{
    let t = trim_start(s);
    let u = trim_end(t);
    lemma_trim_start_shape(s);
    lemma_trim_end_shape(t);
    if u.len() > 0 {
        assert(u[0] == t[0]);
        assert(trim_start(u) == u);
        assert(trim_end(u) == u);
    } else {
        assert(trim_start(u) == u);
        assert(trim_end(u) == u);
    }
}

/// `c` stands at `i` in `s` and nowhere after.
pub open spec fn last_at(s: Seq<char>, c: char, i: int) -> bool {
    &&& 0 <= i < s.len()
    &&& s[i] == c
    &&& forall|j: int| i < j < s.len() ==> s[j] != c
}

/// The place of the last `c` in `s`, where `s` holds one.
pub open spec fn last_index(s: Seq<char>, c: char) -> int {
    choose|i: int| last_at(s, c, i)
}

/// A string has one last place of `c` at most.
pub proof fn lemma_last_index(s: Seq<char>, c: char, i: int)
    requires
        last_at(s, c, i),
    ensures
        last_index(s, c) == i,
        s.contains(c),
{
    let k = last_index(s, c);
    if k < i {
        assert(s[i] != c);
    } else if i < k {
        assert(s[k] != c);
    }
}

/// Down from `i`, where no `c` stands at `i` or after and one stands
/// before, there is a last place of `c`.
proof fn lemma_last_from(s: Seq<char>, c: char, i: int)
    requires
        i <= s.len(),
        forall|j: int| i <= j < s.len() ==> s[j] != c,
        exists|w: int| 0 <= w < i && s[w] == c,
    ensures
        exists|k: int| last_at(s, c, k),
    decreases i,
{
    let w = choose|w: int| 0 <= w < i && s[w] == c;
    if s[i - 1] == c {
        assert(last_at(s, c, i - 1));
    } else {
        assert(0 <= w < i - 1 && s[w] == c);
        lemma_last_from(s, c, i - 1);
    }
}

/// A string that holds `c` has a last place of it.
pub proof fn lemma_last_exists(s: Seq<char>, c: char)
    requires
        s.contains(c),
    ensures
        last_at(s, c, last_index(s, c)),
{
    let w = choose|w: int| 0 <= w < s.len() && s[w] == c;
    assert(0 <= w < s.len() && s[w] == c);
    lemma_last_from(s, c, s.len() as int);
}

/// The place of the last `c` in `s`.
pub fn find_last_char(s: &str, c: char) -> (r: Option<usize>)
    ensures
        match r {
            Some(i) => last_at(s@, c, i as int) && last_index(s@, c) == i,
            None => !s@.contains(c),
        },
{
    let chars = chars_of(s);
    let n = chars.len();
    let mut i: usize = n;
    while i > 0
        invariant
            chars@ == s@,
            n == s@.len(),
            i <= n,
            forall|j: int| i <= j < n ==> s@[j] != c,
        decreases i,
    {
        if chars[i - 1] == c {
            proof {
                lemma_last_index(s@, c, i - 1);
            }
            return Some(i - 1);
        }
        i -= 1;
    }
    None
}

} // verus!
