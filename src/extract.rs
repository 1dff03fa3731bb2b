//! Locating `<tag …>…</tag>` spans, with the shortest-match rules of the
//! single-line patterns `<tag.*?>(.*?)</tag>` and `<.*?>`.

use vstd::prelude::*;
use crate::text::{
    chars_of, find_in_line, find_in_line_exec, lemma_find_in_line_bounds, occurs_at, occurs_at_exec,
    string_of, trim, trim_bounds,
};

verus! {

/// `<tag`: the start of an opening tag.
pub open spec fn open_of(tag: Seq<char>) -> Seq<char> {
    seq!['<'] + tag
}

/// `</tag>`: a closing tag.
pub open spec fn close_of(tag: Seq<char>) -> Seq<char> {
    seq!['<', '/'] + tag + seq!['>']
}

/// The match of `<tag…>…</tag>` that starts at `i`, if any, as
/// (start of the inner text, end of the inner text, end of the match).
/// The opening tag ends at the first `>` after `<tag`; the inner text ends
/// at the first `</tag>` after that; neither search crosses a line break.
pub open spec fn pair_at(t: Seq<char>, i: int, tag: Seq<char>) -> Option<(int, int, int)> {
    if !occurs_at(t, i, open_of(tag)) {
        None
    } else {
        match find_in_line(t, i + open_of(tag).len(), seq!['>']) {
            None => None,
            Some(g) => {
                let a = i + open_of(tag).len() + g + 1;
                match find_in_line(t, a, close_of(tag)) {
                    None => None,
                    Some(c) => Some((a, a + c, a + c + close_of(tag).len())),
                }
            },
        }
    }
}

/// How much of `t` lies at or after `i`.
pub open spec fn left(t: Seq<char>, i: int) -> int {
    if i < t.len() {
        t.len() - i
    } else {
        0
    }
}

/// `t` with every `<…>` span removed (shortest span, on one line).
pub open spec fn strip_tags_from(t: Seq<char>, i: int) -> Seq<char>
    decreases left(t, i),
{
    if i < 0 || i >= t.len() {
        seq![]
    } else if t[i] == '<' {
        match find_in_line(t, i + 1, seq!['>']) {
            Some(g) => strip_tags_from(t, i + 2 + g),
            None => seq![t[i]] + strip_tags_from(t, i + 1),
        }
    } else {
        seq![t[i]] + strip_tags_from(t, i + 1)
    }
}

/// A cell's text: its markup removed, then surrounding whitespace trimmed.
pub open spec fn clean(f: Seq<char>) -> Seq<char> {
    trim(strip_tags_from(f, 0))
}

pub open spec fn fragment(f: Seq<char>, strip: bool) -> Seq<char> {
    if strip {
        clean(f)
    } else {
        f
    }
}

/// The inner texts of all non-overlapping `<tag…>…</tag>` matches in
/// `t[i..]`, left to right, each cleaned when `strip` holds.
pub open spec fn select_from(t: Seq<char>, i: int, tag: Seq<char>, strip: bool) -> Seq<Seq<char>>
    decreases left(t, i),
{
    if i < 0 || i >= t.len() {
        seq![]
    } else {
        match pair_at(t, i, tag) {
            Some((a, b, e)) => seq![fragment(t.subrange(a, b), strip)] + select_from(t, e, tag, strip),
            None => select_from(t, i + 1, tag, strip),
        }
    }
}

pub open spec fn select(t: Seq<char>, tag: Seq<char>, strip: bool) -> Seq<Seq<char>> {
    select_from(t, 0, tag, strip)
}

fn open_exec(tag: &Vec<char>) -> (r: Vec<char>)
    ensures
        r@ == open_of(tag@),
{
    let mut r: Vec<char> = vec!['<'];
    let mut k: usize = 0;
    while k < tag.len()
        invariant
            k <= tag@.len(),
            r@ == seq!['<'] + tag@.take(k as int),
        decreases tag.len() - k,
    {
        r.push(tag[k]);
        k = k + 1;
        assert(r@ =~= seq!['<'] + tag@.take(k as int));
    }
    assert(tag@.take(tag@.len() as int) =~= tag@);
    r
}

fn close_exec(tag: &Vec<char>) -> (r: Vec<char>)
    ensures
        r@ == close_of(tag@),
{
    let mut r: Vec<char> = vec!['<', '/'];
    let mut k: usize = 0;
    while k < tag.len()
        invariant
            k <= tag@.len(),
            r@ == seq!['<', '/'] + tag@.take(k as int),
        decreases tag.len() - k,
    {
        r.push(tag[k]);
        k = k + 1;
        assert(r@ =~= seq!['<', '/'] + tag@.take(k as int));
    }
    r.push('>');
    assert(r@ =~= close_of(tag@));
    r
}

fn pair_at_exec(t: &Vec<char>, i: usize, open: &Vec<char>, close: &Vec<char>, Ghost(
    tag,
): Ghost<Seq<char>>) -> (r: Option<(usize, usize, usize)>)
    requires
        i <= t@.len(),
        open@ == open_of(tag),
        close@ == close_of(tag),
    ensures
        match pair_at(t@, i as int, tag) {
            Some((a, b, e)) => r == Some((a as usize, b as usize, e as usize)) && i < e <= t@.len()
                && a <= b,
            None => r is None,
        },
{
    if !occurs_at_exec(t, i, open) {
        return None;
    }
    assert(i + open.len() <= t.len());
    let gt: Vec<char> = vec!['>'];
    assert(gt@ =~= seq!['>']);
    proof {
        lemma_find_in_line_bounds(t@, i + open@.len(), gt@);
    }
    match find_in_line_exec(t, i + open.len(), &gt) {
        None => None,
        Some(g) => {
            assert(occurs_at(t@, g as int, gt@));
            let a = g + 1;
            proof {
                lemma_find_in_line_bounds(t@, a as int, close@);
            }
            match find_in_line_exec(t, a, close) {
                None => None,
                Some(c) => Some((a, c, c + close.len())),
            }
        },
    }
}

fn strip_tags_exec(t: &Vec<char>) -> (r: Vec<char>)
    ensures
        r@ == strip_tags_from(t@, 0),
{
    let mut r: Vec<char> = Vec::new();
    let gt: Vec<char> = vec!['>'];
    assert(gt@ =~= seq!['>']);
    let mut i: usize = 0;
    while i < t.len()
        invariant
            i <= t@.len(),
            gt@ == seq!['>'],
            r@ + strip_tags_from(t@, i as int) == strip_tags_from(t@, 0),
        decreases t@.len() - i,
    {
        if t[i] == '<' {
            proof {
                lemma_find_in_line_bounds(t@, i + 1, gt@);
            }
            match find_in_line_exec(t, i + 1, &gt) {
                Some(g) => {
                    i = g + 1;
                    continue;
                },
                None => {},
            }
        }
        let ghost r0 = r@;
        r.push(t[i]);
        assert(r@ + strip_tags_from(t@, i + 1) =~= r0 + strip_tags_from(t@, i as int));
        i = i + 1;
    }
    assert(r@ =~= strip_tags_from(t@, 0));
    r
}

fn clean_exec(f: &Vec<char>) -> (r: String)
    ensures
        r@ == clean(f@),
{
    let s = strip_tags_exec(f);
    let (lo, hi) = trim_bounds(&s);
    string_of(&s, lo, hi)
}

fn copy_range(t: &Vec<char>, a: usize, b: usize) -> (r: Vec<char>)
    requires
        a <= b <= t@.len(),
    ensures
        r@ == t@.subrange(a as int, b as int),
{
    let mut r: Vec<char> = Vec::new();
    let mut k: usize = a;
    while k < b
        invariant
            a <= k <= b <= t@.len(),
            r@ == t@.subrange(a as int, k as int),
        decreases b - k,
    {
        r.push(t[k]);
        k = k + 1;
        assert(r@ =~= t@.subrange(a as int, k as int));
    }
    r
}

/// The inner texts of all `<tag…>…</tag>` matches in `html`, left to
/// right; with `strip`, each has its markup removed and is trimmed.
pub fn select_by_tag(html: &str, tag: &str, strip: bool) -> (r: Vec<String>)
    ensures
        r.deep_view() == select(html@, tag@, strip),
{
    let t = chars_of(html);
    let tg = chars_of(tag);
    let open = open_exec(&tg);
    let close = close_exec(&tg);
    let mut r: Vec<String> = Vec::new();
    let mut i: usize = 0;
    while i < t.len()
        invariant
            i <= t@.len(),
            t@ == html@,
            tg@ == tag@,
            open@ == open_of(tag@),
            close@ == close_of(tag@),
            r.deep_view() + select_from(t@, i as int, tag@, strip) == select(html@, tag@, strip),
        decreases t@.len() - i,
    {
        match pair_at_exec(&t, i, &open, &close, Ghost(tag@)) {
            Some((a, b, e)) => {
                let s = if strip {
                    let f = copy_range(&t, a, b);
                    clean_exec(&f)
                } else {
                    string_of(&t, a, b)
                };
                let ghost r0 = r.deep_view();
                r.push(s);
                assert(r.deep_view() =~= r0.push(s@));
                assert(r.deep_view() + select_from(t@, e as int, tag@, strip) =~= r0
                    + select_from(t@, i as int, tag@, strip));
                i = e;
            },
            None => {
                i = i + 1;
            },
        }
    }
    assert(r.deep_view() =~= select(html@, tag@, strip));
    r
}

/// Text with no markup and no line break.
pub open spec fn plain(s: Seq<char>) -> bool {
    forall|k: int| 0 <= k < s.len() ==> s[k] != '<' && s[k] != '\n'
}

/// `<tag>body</tag>`.
pub open spec fn element(tag: Seq<char>, body: Seq<char>) -> Seq<char> {
    open_of(tag) + seq!['>'] + body + close_of(tag)
}

/// `pre[0] <tag>bodies[0]</tag> pre[1] <tag>bodies[1]</tag> … tail`.
pub open spec fn tagged(
    tag: Seq<char>,
    pre: Seq<Seq<char>>,
    bodies: Seq<Seq<char>>,
    tail: Seq<char>,
) -> Seq<char>
    decreases pre.len(),
{
    if pre.len() == 0 {
        tail
    } else {
        pre[0] + element(tag, bodies[0]) + tagged(tag, pre.drop_first(), bodies.drop_first(), tail)
    }
}

proof fn lemma_occurs_shift(p: Seq<char>, s: Seq<char>, j: int, q: Seq<char>)
    requires
        0 <= j,
    ensures
        occurs_at(p + s, p.len() + j, q) == occurs_at(s, j, q),
{
    if j + q.len() <= s.len() {
        assert((p + s).subrange(p.len() + j, p.len() + j + q.len()) =~= s.subrange(j, j + q.len()));
    }
}

proof fn lemma_find_shift(p: Seq<char>, s: Seq<char>, j: int, q: Seq<char>)
    requires
        0 <= j,
    ensures
        find_in_line(p + s, p.len() + j, q) == find_in_line(s, j, q),
    decreases s.len() - j,
{
    if j <= s.len() {
        lemma_occurs_shift(p, s, j, q);
        if j < s.len() {
            assert((p + s)[p.len() + j] == s[j]);
            lemma_find_shift(p, s, j + 1, q);
        }
    }
}

proof fn lemma_pair_shift(p: Seq<char>, s: Seq<char>, j: int, tag: Seq<char>)
    requires
        0 <= j,
    ensures
        match pair_at(s, j, tag) {
            Some((a, b, e)) => pair_at(p + s, p.len() + j, tag) == Some(
                (p.len() + a, p.len() + b, p.len() + e),
            ),
            None => pair_at(p + s, p.len() + j, tag) is None,
        },
{
    lemma_occurs_shift(p, s, j, open_of(tag));
    let o = j + open_of(tag).len();
    lemma_find_shift(p, s, o, seq!['>']);
    if let Some(g) = find_in_line(s, o, seq!['>']) {
        lemma_find_shift(p, s, o + g + 1, close_of(tag));
    }
}

/// What is selected from `s[j..]` does not depend on what precedes `s`.
proof fn lemma_select_shift(p: Seq<char>, s: Seq<char>, j: int, tag: Seq<char>, strip: bool)
    requires
        0 <= j,
    ensures
        select_from(p + s, p.len() + j, tag, strip) == select_from(s, j, tag, strip),
    decreases left(s, j),
{
    if j < s.len() {
        lemma_pair_shift(p, s, j, tag);
        match pair_at(s, j, tag) {
            Some((a, b, e)) => {
                let o = j + open_of(tag).len();
                lemma_find_in_line_bounds(s, o, seq!['>']);
                lemma_find_in_line_bounds(s, a, close_of(tag));
                assert((p + s).subrange(p.len() + a, p.len() + b) =~= s.subrange(a, b));
                lemma_select_shift(p, s, e, tag, strip);
            },
            None => {
                lemma_select_shift(p, s, j + 1, tag, strip);
            },
        }
    }
}

/// Plain text before a match is passed over.
proof fn lemma_skip_plain(g: Seq<char>, s: Seq<char>, i: int, tag: Seq<char>, strip: bool)
    requires
        plain(g),
        0 <= i <= g.len(),
    ensures
        select_from(g + s, i, tag, strip) == select_from(g + s, g.len() as int, tag, strip),
    decreases g.len() - i,
{
    if i < g.len() {
        let t = g + s;
        if occurs_at(t, i, open_of(tag)) {
            assert(t.subrange(i, i + open_of(tag).len())[0] == open_of(tag)[0]);
            assert(t[i] == g[i]);
        }
        lemma_skip_plain(g, s, i + 1, tag, strip);
    }
}

proof fn lemma_find_close(t: Seq<char>, a: int, body: Seq<char>, tag: Seq<char>, j: int)
    requires
        0 <= a,
        plain(body),
        t.subrange(a, a + body.len() + close_of(tag).len()) == body + close_of(tag),
        a <= j <= a + body.len(),
        a + body.len() + close_of(tag).len() <= t.len(),
    ensures
        find_in_line(t, j, close_of(tag)) == Some((a + body.len() - j) as nat),
    decreases a + body.len() - j,
{
    let c = close_of(tag);
    let n = a + body.len();
    if j == n {
        assert(t.subrange(j, j + c.len()) =~= t.subrange(a, n + c.len()).subrange(
            body.len() as int,
            (body.len() + c.len()) as int,
        ));
        assert((body + c).subrange(body.len() as int, (body.len() + c.len()) as int) =~= c);
    } else {
        assert(t[j] == (body + c)[j - a]);
        assert(t[j] == body[j - a]);
        if occurs_at(t, j, c) {
            assert(t.subrange(j, j + c.len())[0] == c[0]);
        }
        lemma_find_close(t, a, body, tag, j + 1);
    }
}

/// A leading `<tag>body</tag>` is matched, with `body` as its inner text.
proof fn lemma_element(tag: Seq<char>, body: Seq<char>, rest: Seq<char>, strip: bool)
    requires
        plain(body),
    ensures
        select_from(element(tag, body) + rest, 0, tag, strip) == seq![fragment(body, strip)]
            + select_from(element(tag, body) + rest, element(tag, body).len() as int, tag, strip),
{
    let t = element(tag, body) + rest;
    let o = open_of(tag).len() as int;
    let a = o + 1;
    let c = close_of(tag);
    assert(t.subrange(0, o) =~= open_of(tag));
    assert(t.subrange(o, o + 1) =~= seq!['>']);
    assert(find_in_line(t, o, seq!['>']) == Some(0nat));
    assert(t.subrange(a, a + body.len() + c.len()) =~= body + c);
    lemma_find_close(t, a, body, tag, a);
    assert(t.subrange(a, a + body.len()) =~= body);
    assert(pair_at(t, 0, tag) == Some((a, a + body.len(), a + body.len() + c.len())));
}

/// In a text made of `n` elements `<tag>body</tag>` separated by plain
/// text, the bodies being plain, exactly the `n` bodies are selected, in
/// order; with no element nothing is selected.
pub proof fn lemma_select_tagged(
    tag: Seq<char>,
    pre: Seq<Seq<char>>,
    bodies: Seq<Seq<char>>,
    tail: Seq<char>,
)
    requires
        pre.len() == bodies.len(),
        forall|i: int| 0 <= i < pre.len() ==> plain(#[trigger] pre[i]),
        forall|i: int| 0 <= i < bodies.len() ==> plain(#[trigger] bodies[i]),
        plain(tail),
    ensures
        select(tagged(tag, pre, bodies, tail), tag, false) == bodies,
    decreases pre.len(),
{
    if pre.len() == 0 {
        assert(tail + seq![] =~= tail);
        lemma_skip_plain(tail, seq![], 0, tag, false);
        assert(bodies =~= seq![]);
    } else {
        let g = pre[0];
        let e = element(tag, bodies[0]);
        let r = tagged(tag, pre.drop_first(), bodies.drop_first(), tail);
        assert forall|i: int| 0 <= i < pre.drop_first().len() implies plain(
            #[trigger] pre.drop_first()[i],
        ) by {
            assert(pre.drop_first()[i] == pre[i + 1]);
        }
        assert forall|i: int| 0 <= i < bodies.drop_first().len() implies plain(
            #[trigger] bodies.drop_first()[i],
        ) by {
            assert(bodies.drop_first()[i] == bodies[i + 1]);
        }
        lemma_select_tagged(tag, pre.drop_first(), bodies.drop_first(), tail);
        assert(tagged(tag, pre, bodies, tail) =~= g + (e + r));
        lemma_skip_plain(g, e + r, 0, tag, false);
        lemma_select_shift(g, e + r, 0, tag, false);
        lemma_element(tag, bodies[0], r, false);
        lemma_select_shift(e, r, 0, tag, false);
        assert(seq![bodies[0]] + bodies.drop_first() =~= bodies);
    }
}

} // verus!
