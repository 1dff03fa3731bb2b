//! Character-level primitives over `Seq<char>` models of strings.

use vstd::prelude::*;
use vstd::std_specs::iter::IteratorSpec;

verus! {

broadcast use vstd::string::group_string_axioms;

/// `p` occurs in `s` at index `i`.
pub open spec fn occurs_at(s: Seq<char>, i: int, p: Seq<char>) -> bool {
    0 <= i && i + p.len() <= s.len() && s.subrange(i, i + p.len()) == p
}

/// Offset from `from` of the first occurrence of `p` in `s` at or after
/// `from`, provided no line break is passed over on the way: this is the
/// reach of a lazy `.*?p` in a single-line regular expression.
pub open spec fn find_in_line(s: Seq<char>, from: int, p: Seq<char>) -> Option<nat>
    decreases s.len() - from,
{
    if from < 0 || from >= s.len() + 1 {
        None
    } else if occurs_at(s, from, p) {
        Some(0)
    } else if from == s.len() || s[from] == '\n' {
        None
    } else {
        match find_in_line(s, from + 1, p) {
            Some(k) => Some(k + 1),
            None => None,
        }
    }
}

pub proof fn lemma_find_in_line_bounds(s: Seq<char>, from: int, p: Seq<char>)
    ensures
        find_in_line(s, from, p) matches Some(k) ==> occurs_at(s, from + k, p),
    decreases s.len() - from,
{
    if 0 <= from < s.len() && !occurs_at(s, from, p) && s[from] != '\n' {
        lemma_find_in_line_bounds(s, from + 1, p);
    }
}

/// Relies on `String::push`: appends one character.
#[verifier::external_body]
pub fn push_char(s: &mut String, c: char)
    ensures
        final(s)@ == old(s)@.push(c),
{
    s.push(c);
}

/// The characters of `s`, in order.
pub fn chars_of(s: &str) -> (r: Vec<char>)
    ensures
        r@ == s@,
{
    let mut r: Vec<char> = Vec::new();
    for c in it: s.chars()
        invariant
            r@ == it.seq().take(it.index()),
    {
        r.push(c);
        assert(r@ =~= it.seq().take(it.index() + 1));
    }
    assert(r@ =~= s@);
    r
}

/// A string holding `t[from..to]`.
pub fn string_of(t: &Vec<char>, from: usize, to: usize) -> (r: String)
    requires
        from <= to <= t@.len(),
    ensures
        r@ == t@.subrange(from as int, to as int),
{
    let mut r = String::new();
    let mut i: usize = from;
    while i < to
        invariant
            from <= i <= to <= t@.len(),
            r@ == t@.subrange(from as int, i as int),
        decreases to - i,
    {
        push_char(&mut r, t[i]);
        i = i + 1;
        assert(r@ =~= t@.subrange(from as int, i as int));
    }
    r
}

/// Whether `p` occurs in `t` at index `i`.
pub fn occurs_at_exec(t: &Vec<char>, i: usize, p: &Vec<char>) -> (r: bool)
    ensures
        r == occurs_at(t@, i as int, p@),
{
    if p.len() > t.len() || i > t.len() - p.len() {
        return false;
    }
    let mut k: usize = 0;
    while k < p.len()
        invariant
            i + p@.len() <= t@.len(),
            k <= p@.len(),
            forall|j: int| 0 <= j < k ==> t@[i + j] == p@[j],
        decreases p.len() - k,
    {
        assert(i + k < t.len());
        if t[i + k] != p[k] {
            assert(t@.subrange(i as int, i + p@.len())[k as int] != p@[k as int]);
            return false;
        }
        k = k + 1;
    }
    assert(t@.subrange(i as int, i + p@.len()) =~= p@);
    true
}

/// Index of the first occurrence of `p` at or after `from` that is reached
/// without passing a line break.
pub fn find_in_line_exec(t: &Vec<char>, from: usize, p: &Vec<char>) -> (r: Option<usize>)
    requires
        from <= t@.len(),
    ensures
        match find_in_line(t@, from as int, p@) {
            Some(k) => r == Some((from + k) as usize),
            None => r is None,
        },
{
    let mut j: usize = from;
    loop
        invariant
            from <= j <= t@.len(),
            find_in_line(t@, from as int, p@) == match find_in_line(t@, j as int, p@) {
                Some(k) => Some((k + (j - from)) as nat),
                None => None,
            },
        decreases t@.len() - j,
    {
        if occurs_at_exec(t, j, p) {
            return Some(j);
        }
        if j == t.len() || t[j] == '\n' {
            return None;
        }
        j = j + 1;
    }
}

} // verus!

verus! {

/// Rust's `char::is_whitespace`: the Unicode `White_Space` property.
pub open spec fn is_ws(c: char) -> bool {
    ('\u{9}' <= c && c <= '\u{d}') || c == ' ' || c == '\u{85}' || c == '\u{a0}' || c == '\u{1680}'
        || ('\u{2000}' <= c && c <= '\u{200a}') || c == '\u{2028}' || c == '\u{2029}' || c
        == '\u{202f}' || c == '\u{205f}' || c == '\u{3000}'
}

pub fn is_ws_exec(c: char) -> (r: bool)
    ensures
        r == is_ws(c),
{
    ('\u{9}' <= c && c <= '\u{d}') || c == ' ' || c == '\u{85}' || c == '\u{a0}' || c == '\u{1680}'
        || ('\u{2000}' <= c && c <= '\u{200a}') || c == '\u{2028}' || c == '\u{2029}' || c
        == '\u{202f}' || c == '\u{205f}' || c == '\u{3000}'
}

/// Index of the first non-whitespace character of `s` at or after `i`.
pub open spec fn skip_ws_fwd(s: Seq<char>, i: int) -> int
    decreases s.len() - i,
{
    if 0 <= i < s.len() && is_ws(s[i]) {
        skip_ws_fwd(s, i + 1)
    } else {
        i
    }
}

/// End of `s[lo..j]` once trailing whitespace is dropped.
pub open spec fn skip_ws_back(s: Seq<char>, lo: int, j: int) -> int
    decreases j - lo,
{
    if lo < j && j <= s.len() && is_ws(s[j - 1]) {
        skip_ws_back(s, lo, j - 1)
    } else {
        j
    }
}

/// `s` with leading and trailing whitespace removed.
pub open spec fn trim(s: Seq<char>) -> Seq<char> {
    let lo = skip_ws_fwd(s, 0);
    s.subrange(lo, skip_ws_back(s, lo, s.len() as int))
}

/// The bounds of `trim(s@)` within `s`.
pub fn trim_bounds(s: &Vec<char>) -> (r: (usize, usize))
    ensures
        r.0 <= r.1 <= s@.len(),
        s@.subrange(r.0 as int, r.1 as int) == trim(s@),
{
    let mut lo: usize = 0;
    while lo < s.len() && is_ws_exec(s[lo])
        invariant
            lo <= s@.len(),
            skip_ws_fwd(s@, lo as int) == skip_ws_fwd(s@, 0),
        decreases s@.len() - lo,
    {
        lo = lo + 1;
    }
    let mut hi: usize = s.len();
    while hi > lo && is_ws_exec(s[hi - 1])
        invariant
            lo <= hi <= s@.len(),
            lo == skip_ws_fwd(s@, 0),
            skip_ws_back(s@, lo as int, hi as int) == skip_ws_back(s@, lo as int, s@.len() as int),
        decreases hi - lo,
    {
        hi = hi - 1;
    }
    (lo, hi)
}

} // verus!

verus! {

/// Appends the characters of `s` to `r`.
pub fn append_str(r: &mut String, s: &str)
    ensures
        final(r)@ == old(r)@ + s@,
{
    let c = chars_of(s);
    let mut j: usize = 0;
    while j < c.len()
        invariant
            j <= c@.len(),
            c@ == s@,
            r@ == old(r)@ + c@.take(j as int),
        decreases c.len() - j,
    {
        push_char(r, c[j]);
        j = j + 1;
        assert(r@ =~= old(r)@ + c@.take(j as int));
    }
    assert(c@.take(j as int) =~= c@);
}

} // verus!
