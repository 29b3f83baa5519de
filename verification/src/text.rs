//! Text as sequences of characters.
//!
//! Contracts throughout the crate speak of a string by its view, a
//! `Seq<char>`. Executable code that has to index into text works on a
//! `Vec<char>`, which has the same view.

use vstd::prelude::*;

verus! {

/// The characters of `s`, in order, as an indexable vector.
pub fn chars_of(s: &str) -> (v: Vec<char>)
    ensures
        v@ == s@,
{
    let mut v: Vec<char> = Vec::new();
    for c in it: s.chars()
        invariant
            it.seq() == s@,
            v@ == s@.take(it.index() as int),
    {
        v.push(c);
    }
    v
}

/// Collects the characters of `v` into a `String`, through the standard
/// library's `FromIterator<char>` for `String`.
///
/// Taken on trust from its documentation: the string holds the characters of
/// the iterator in their order.
#[verifier::external_body]
pub(crate) fn string_of(v: &Vec<char>) -> (s: String)
    ensures
        s@ == v@,
{
    v.iter().collect()
}

/// The views of a vector's items, in order.
pub open spec fn views(v: Seq<Vec<char>>) -> Seq<Seq<char>> {
    v.map_values(|t: Vec<char>| t@)
}

/// The views of a vector's strings, in order.
pub open spec fn texts(v: Seq<String>) -> Seq<Seq<char>> {
    v.map_values(|t: String| t@)
}

/// Whether `c` has the Unicode property White_Space.
pub open spec fn is_whitespace(c: char) -> bool {
    let u = c as u32;
    ||| 0x09 <= u <= 0x0D
    ||| u == 0x20
    ||| u == 0x85
    ||| u == 0xA0
    ||| u == 0x1680
    ||| 0x2000 <= u <= 0x200A
    ||| u == 0x2028
    ||| u == 0x2029
    ||| u == 0x202F
    ||| u == 0x205F
    ||| u == 0x3000
}

/// `s` without its leading whitespace.
pub open spec fn trimmed_start(s: Seq<char>) -> Seq<char>
    decreases s.len(),
{
    if s.len() > 0 && is_whitespace(s.first()) {
        trimmed_start(s.drop_first())
    } else {
        s
    }
}

/// `s` without its trailing whitespace.
pub open spec fn trimmed_end(s: Seq<char>) -> Seq<char>
    decreases s.len(),
{
    if s.len() > 0 && is_whitespace(s.last()) {
        trimmed_end(s.drop_last())
    } else {
        s
    }
}

/// `s` without leading and trailing whitespace.
pub open spec fn trimmed(s: Seq<char>) -> Seq<char> {
    trimmed_end(trimmed_start(s))
}

/// What is left of `s` without its leading whitespace is the end of `s`, and
/// starts with no whitespace.
pub proof fn lemma_trimmed_start(s: Seq<char>)
    ensures
        trimmed_start(s).len() <= s.len(),
        trimmed_start(s) == s.skip(s.len() - trimmed_start(s).len()),
        trimmed_start(s).len() > 0 ==> !is_whitespace(trimmed_start(s).first()),
    decreases s.len(),
{
    if s.len() > 0 && is_whitespace(s.first()) {
        let r = s.drop_first();
        lemma_trimmed_start(r);
        assert(r.skip(r.len() - trimmed_start(r).len()) == s.skip(s.len() - trimmed_start(s).len()));
    } else {
        assert(s.skip(0) == s);
    }
}

/// What is left of `s` without its trailing whitespace is the start of `s`,
/// and ends with no whitespace.
pub proof fn lemma_trimmed_end(s: Seq<char>)
    ensures
        trimmed_end(s).len() <= s.len(),
        trimmed_end(s) == s.take(trimmed_end(s).len() as int),
        trimmed_end(s).len() > 0 ==> !is_whitespace(trimmed_end(s).last()),
    decreases s.len(),
{
    if s.len() > 0 && is_whitespace(s.last()) {
        let r = s.drop_last();
        lemma_trimmed_end(r);
        assert(r.take(trimmed_end(r).len() as int) == s.take(trimmed_end(s).len() as int));
    } else {
        assert(s.take(s.len() as int) == s);
    }
}

/// A trimmed text has no whitespace left to trim.
pub proof fn lemma_trimmed_idempotent(s: Seq<char>)
    ensures
        trimmed(trimmed(s)) == trimmed(s),
{
    let u = trimmed_start(s);
    let w = trimmed_end(u);
    lemma_trimmed_start(s);
    lemma_trimmed_end(u);
    if w.len() > 0 {
        assert(w.first() == u.first());
    }
}

/// Whether `pat` occurs in `s` as a contiguous run of characters.
pub open spec fn occurs_in(pat: Seq<char>, s: Seq<char>) -> bool {
    exists|i: int| 0 <= i <= s.len() - pat.len() && #[trigger] s.subrange(i, i + pat.len()) == pat
}

/// The index of the first line feed of `s` at or behind `from`, or the
/// length of `s` where there is none.
pub open spec fn line_end(s: Seq<char>, from: int) -> int
    decreases s.len() - from,
{
    if from >= s.len() {
        s.len() as int
    } else if s[from] == '\n' {
        from
    } else {
        line_end(s, from + 1)
    }
}

/// `s` without a carriage return at its end.
pub open spec fn without_cr(s: Seq<char>) -> Seq<char> {
    if s.len() > 0 && s.last() == '\r' {
        s.drop_last()
    } else {
        s
    }
}

/// A line's end lies at or behind its start, and within the text.
pub proof fn lemma_line_end_bounds(s: Seq<char>, from: int)
    requires
        0 <= from,
    ensures
        from <= line_end(s, from) || s.len() <= from,
        line_end(s, from) <= s.len(),
        line_end(s, from) < s.len() ==> s[line_end(s, from)] == '\n',
        forall|k: int| from <= k < line_end(s, from) ==> s[k] != '\n',
    decreases s.len() - from,
{
    if from < s.len() && s[from] != '\n' {
        lemma_line_end_bounds(s, from + 1);
    }
}

/// The lines of `s` from index `from` on.
pub open spec fn lines_from(s: Seq<char>, from: int) -> Seq<Seq<char>>
    decreases s.len() - from,
    when 0 <= from
{
    if from >= s.len() {
        Seq::empty()
    } else {
        let end = line_end(s, from);
        proof {
            lemma_line_end_bounds(s, from);
        }
        if end >= s.len() {
            seq![s.subrange(from, s.len() as int)]
        } else {
            seq![without_cr(s.subrange(from, end))] + lines_from(s, end + 1)
        }
    }
}

/// The lines of a text. A line ends with a line feed, or with a carriage
/// return and a line feed; neither belongs to the line. What follows the last
/// line feed is a line of its own unless it is empty, and keeps a carriage
/// return at its end.
pub open spec fn lines_of(s: Seq<char>) -> Seq<Seq<char>> {
    lines_from(s, 0)
}

/// Tests a character for the Unicode property White_Space.
pub fn whitespace(c: char) -> (b: bool)
    ensures
        b == is_whitespace(c),
{
    let u: u32 = c as u32;
    if u < 0x80 {
        (0x09 <= u && u <= 0x0D) || u == 0x20
    } else {
        u == 0x85 || u == 0xA0 || u == 0x1680 || (0x2000 <= u && u <= 0x200A) || u == 0x2028 || u
            == 0x2029 || u == 0x202F || u == 0x205F || u == 0x3000
    }
}

/// Copies the characters of `v` from index `from` up to, not including, `to`.
fn subrange(v: &Vec<char>, from: usize, to: usize) -> (out: Vec<char>)
    requires
        from <= to <= v.len(),
    ensures
        out@ == v@.subrange(from as int, to as int),
{
    let mut out: Vec<char> = Vec::new();
    let mut i: usize = from;
    while i < to
        invariant
            from <= i <= to <= v.len(),
            out@ == v@.subrange(from as int, i as int),
        decreases to - i,
    {
        out.push(v[i]);
        i += 1;
    }
    out
}

/// Removes leading and trailing whitespace.
pub fn trim(v: &Vec<char>) -> (out: Vec<char>)
    ensures
        out@ == trimmed(v@),
{
    let n: usize = v.len();
    let mut a: usize = 0;
    assert(v@.skip(0) == v@);
    while a < n && whitespace(v[a])
        invariant
            a <= n == v.len(),
            trimmed_start(v@) == trimmed_start(v@.skip(a as int)),
        decreases n - a,
    {
        assert(v@.skip(a as int).drop_first() == v@.skip(a + 1));
        a += 1;
    }
    let mut b: usize = n;
    while b > a && whitespace(v[b - 1])
        invariant
            a <= b <= n == v.len(),
            trimmed_end(v@.skip(a as int)) == trimmed_end(v@.subrange(a as int, b as int)),
        decreases b,
    {
        assert(v@.subrange(a as int, b as int).drop_last() == v@.subrange(a as int, b - 1));
        b -= 1;
    }
    assert(v@.skip(a as int) == v@.subrange(a as int, n as int));
    subrange(v, a, b)
}

/// Whether the characters of `pat` stand in `v` from index `at` on.
pub(crate) fn has_prefix_at(v: &Vec<char>, at: usize, pat: &str) -> (b: bool)
    requires
        at <= v.len(),
    ensures
        b == pat@.is_prefix_of(v@.skip(at as int)),
{
    let n: usize = v.len();
    let mut k: usize = 0;
    for c in it: pat.chars()
        invariant
            it.seq() == pat@,
            k == it.index(),
            at <= n == v.len(),
            k <= n - at,
            v@.subrange(at as int, at + k) == pat@.take(k as int),
    {
        if at + k >= n || v[at + k] != c {
            proof {
                if at + k < n {
                    assert(v@.skip(at as int)[k as int] != pat@[k as int]);
                }
            }
            return false;
        }
        assert(v@.subrange(at as int, at + k + 1) == v@.subrange(at as int, at + k).push(
            v@[at + k],
        ));
        assert(pat@.take(k + 1) == pat@.take(k as int).push(pat@[k as int]));
        k += 1;
    }
    assert(pat@.take(k as int) == pat@);
    assert(v@.skip(at as int).subrange(0, k as int) == v@.subrange(at as int, at + k));
    true
}

/// Whether the characters of `pat` occur somewhere in `v`, side by side.
pub fn contains(v: &Vec<char>, pat: &str) -> (b: bool)
    ensures
        b == occurs_in(pat@, v@),
{
    let n: usize = v.len();
    let mut i: usize = 0;
    loop
        invariant
            i <= n == v.len(),
            forall|j: int|
                0 <= j < i && j <= n - pat@.len() ==> #[trigger] v@.subrange(j, j + pat@.len())
                    != pat@,
        decreases n - i,
    {
        if has_prefix_at(v, i, pat) {
            assert(v@.skip(i as int).subrange(0, pat@.len() as int) == v@.subrange(
                i as int,
                i + pat@.len(),
            ));
            return true;
        }
        proof {
            if i <= n - pat@.len() {
                assert(v@.skip(i as int).subrange(0, pat@.len() as int) == v@.subrange(
                    i as int,
                    i + pat@.len(),
                ));
            }
        }
        if i == n {
            return false;
        }
        i += 1;
    }
}

/// Splits a text into its lines.
pub fn split_lines(text: &Vec<char>) -> (lines: Vec<Vec<char>>)
    ensures
        views(lines@) == lines_of(text@),
{
    let n: usize = text.len();
    let mut lines: Vec<Vec<char>> = Vec::new();
    let mut start: usize = 0;
    let mut i: usize = 0;
    while i < n
        invariant
            start <= i <= n == text.len(),
            line_end(text@, start as int) == line_end(text@, i as int),
            lines_of(text@) == views(lines@) + lines_from(text@, start as int),
        decreases n - i,
    {
        if text[i] == '\n' {
            let end: usize = if i > start && text[i - 1] == '\r' {
                i - 1
            } else {
                i
            };
            let ghost before = views(lines@);
            let line = subrange(text, start, end);
            assert(line@ == without_cr(text@.subrange(start as int, i as int)));
            lines.push(line);
            assert(views(lines@) == before.push(line@));
            assert(before.push(line@) + lines_from(text@, i + 1) == before + (seq![line@]
                + lines_from(text@, i + 1)));
            start = i + 1;
        }
        i += 1;
    }
    if start < n {
        let ghost before = views(lines@);
        let line = subrange(text, start, n);
        lines.push(line);
        assert(views(lines@) == before.push(line@));
    } else {
        assert(views(lines@) + Seq::<Seq<char>>::empty() == views(
            lines@,
        ));
    }
    lines
}

} // verus!
