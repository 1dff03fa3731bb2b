//! The cache format: every table fragment of every page, joined by `|`.

use vstd::prelude::*;
use crate::extract::{select, select_by_tag};
use crate::table::collect;
use crate::text::{chars_of, push_char, string_of};

verus! {

broadcast use vstd::std_specs::vec::group_vec_axioms;

/// The fragments `xs` joined with `|` between neighbours.
pub open spec fn join(xs: Seq<Seq<char>>) -> Seq<char>
    decreases xs.len(),
{
    if xs.len() == 0 {
        seq![]
    } else if xs.len() == 1 {
        xs[0]
    } else {
        join(xs.drop_last()) + seq!['|'] + xs.last()
    }
}

/// `s` cut at every `|`; there is always at least one piece.
pub open spec fn split(s: Seq<char>) -> Seq<Seq<char>>
    decreases s.len(),
{
    if s.len() == 0 {
        seq![seq![]]
    } else {
        let pieces = split(s.drop_last());
        if s.last() == '|' {
            pieces.push(seq![])
        } else {
            pieces.update(pieces.len() - 1, pieces.last().push(s.last()))
        }
    }
}

pub proof fn lemma_split_nonempty(s: Seq<char>)
    ensures
        split(s).len() >= 1,
    decreases s.len(),
{
    if s.len() > 0 {
        lemma_split_nonempty(s.drop_last());
    }
}

/// Appending text without `|` extends the last piece of a split.
proof fn lemma_split_extend(p: Seq<char>, b: Seq<char>)
    requires
        !b.contains('|'),
    ensures
        split(p + b) == split(p).update(split(p).len() - 1, split(p).last() + b),
    decreases b.len(),
{
    lemma_split_nonempty(p);
    if b.len() == 0 {
        assert(p + b =~= p);
        assert(split(p).last() + b =~= split(p).last());
        assert(split(p).update(split(p).len() - 1, split(p).last()) =~= split(p));
    } else {
        let b0 = b.drop_last();
        assert(!b0.contains('|')) by {
            if b0.contains('|') {
                let k = choose|k: int| 0 <= k < b0.len() && b0[k] == '|';
                assert(b[k] == '|');
            }
        }
        lemma_split_extend(p, b0);
        assert((p + b).drop_last() =~= p + b0);
        assert((p + b).last() == b.last());
        assert(b.last() != '|') by {
            assert(b[b.len() - 1] == b.last());
        }
        assert(split(p).last() + b =~= (split(p).last() + b0).push(b.last()));
        assert(split(p + b) =~= split(p).update(split(p).len() - 1, split(p).last() + b));
    }
}

/// Cutting the cache text at `|` gives back the fragments that were joined,
/// provided there is at least one and none holds a `|`.
pub proof fn lemma_split_join(xs: Seq<Seq<char>>)
    requires
        xs.len() >= 1,
        forall|i: int| 0 <= i < xs.len() ==> !(#[trigger] xs[i]).contains('|'),
    ensures
        split(join(xs)) == xs,
    decreases xs.len(),
{
    if xs.len() == 1 {
        lemma_split_extend(seq![], xs[0]);
        assert(seq![] + xs[0] =~= xs[0]);
        assert(split(seq![]).last() + xs[0] =~= xs[0]);
        assert(split(join(xs)) =~= xs);
    } else {
        let front = xs.drop_last();
        assert forall|i: int| 0 <= i < front.len() implies !(#[trigger] front[i]).contains('|') by {
            assert(front[i] == xs[i]);
        }
        lemma_split_join(front);
        let p = join(front) + seq!['|'];
        assert(p.drop_last() =~= join(front));
        assert(split(p) == split(join(front)).push(seq![]));
        assert(xs[xs.len() - 1] == xs.last());
        lemma_split_extend(p, xs.last());
        assert(seq![] + xs.last() =~= xs.last());
        assert(split(join(xs)) =~= xs);
    }
}

/// Joining the pieces of any text with `|` gives the text back.
pub proof fn lemma_join_split(s: Seq<char>)
    ensures
        join(split(s)) == s,
    decreases s.len(),
{
    if s.len() > 0 {
        let s0 = s.drop_last();
        lemma_join_split(s0);
        lemma_split_nonempty(s0);
        let pieces = split(s0);
        if s.last() == '|' {
            assert(pieces.push(seq![]).drop_last() =~= pieces);
            assert(join(pieces) + seq!['|'] + seq![] =~= s);
        } else {
            let up = pieces.update(pieces.len() - 1, pieces.last().push(s.last()));
            if pieces.len() == 1 {
                assert(up[0] =~= s);
            } else {
                assert(up.drop_last() =~= pieces.drop_last());
                assert(join(pieces) == join(pieces.drop_last()) + seq!['|'] + pieces.last());
                assert(s =~= s0.push(s.last()));
                assert(join(pieces.drop_last()) + seq!['|'] + pieces.last().push(s.last()) =~= s);
            }
        }
    }
}

/// The number of `|` in `b`.
pub open spec fn bars(b: Seq<char>) -> nat
    decreases b.len(),
{
    if b.len() == 0 {
        0
    } else {
        bars(b.drop_last()) + if b.last() == '|' {
            1nat
        } else {
            0nat
        }
    }
}

proof fn lemma_split_len(p: Seq<char>, b: Seq<char>)
    ensures
        split(p + b).len() == split(p).len() + bars(b),
    decreases b.len(),
{
    lemma_split_nonempty(p);
    if b.len() == 0 {
        assert(p + b =~= p);
    } else {
        lemma_split_len(p, b.drop_last());
        lemma_split_nonempty(p + b.drop_last());
        assert((p + b).drop_last() =~= p + b.drop_last());
        assert((p + b).last() == b.last());
    }
}

proof fn lemma_bars_positive(b: Seq<char>)
    requires
        b.contains('|'),
    ensures
        bars(b) >= 1,
    decreases b.len(),
{
    if b.last() != '|' {
        let k = choose|k: int| 0 <= k < b.len() && b[k] == '|';
        assert(b.drop_last()[k] == '|');
        lemma_bars_positive(b.drop_last());
    }
}

/// Reading the cache back never yields fewer fragments than were written,
/// and yields more as soon as one fragment holds a `|`: such content does
/// not survive the cache.
pub proof fn lemma_split_join_with_bar(xs: Seq<Seq<char>>)
    requires
        xs.len() >= 1,
    ensures
        split(join(xs)).len() >= xs.len(),
        (exists|i: int| 0 <= i < xs.len() && (#[trigger] xs[i]).contains('|')) ==> split(
            join(xs),
        ).len() > xs.len(),
    decreases xs.len(),
{
    if xs.len() == 1 {
        lemma_split_len(seq![], xs[0]);
        assert(seq![] + xs[0] =~= xs[0]);
        if exists|i: int| 0 <= i < xs.len() && (#[trigger] xs[i]).contains('|') {
            lemma_bars_positive(xs[0]);
        }
    } else {
        let front = xs.drop_last();
        lemma_split_join_with_bar(front);
        let p = join(front) + seq!['|'];
        assert(p.drop_last() =~= join(front));
        lemma_split_nonempty(join(front));
        lemma_split_len(p, xs.last());
        if exists|i: int| 0 <= i < xs.len() && (#[trigger] xs[i]).contains('|') {
            let i = choose|i: int| 0 <= i < xs.len() && (#[trigger] xs[i]).contains('|');
            if i == xs.len() - 1 {
                lemma_bars_positive(xs.last());
            } else {
                assert(front[i] == xs[i]);
            }
        }
    }
}

/// A run that finds the cache reads the same tables, writes the same cache
/// text back, and so yields the same records as the run after it.
pub proof fn lemma_cached_run_stable(cache: Seq<char>, cats: Seq<Seq<char>>)
    ensures
        join(split(cache)) == cache,
        collect(split(join(split(cache))), cats) == collect(split(cache), cats),
{
    lemma_join_split(cache);
}

/// The fragments of `tables`, joined with `|`, as written to the cache.
pub fn join_cache(tables: &Vec<String>) -> (r: String)
    ensures
        r@ == join(tables.deep_view()),
{
    let mut r = String::new();
    let mut k: usize = 0;
    while k < tables.len()
        invariant
            k <= tables@.len(),
            r@ == join(tables.deep_view().take(k as int)),
        decreases tables.len() - k,
    {
        let ghost xs = tables.deep_view().take(k + 1);
        assert(xs.drop_last() =~= tables.deep_view().take(k as int));
        assert(xs.last() == tables[k as int]@);
        if k > 0 {
            push_char(&mut r, '|');
        }
        let c = chars_of(tables[k].as_str());
        let ghost r0 = r@;
        let mut j: usize = 0;
        while j < c.len()
            invariant
                j <= c@.len(),
                r@ == r0 + c@.take(j as int),
            decreases c.len() - j,
        {
            push_char(&mut r, c[j]);
            j = j + 1;
            assert(r@ =~= r0 + c@.take(j as int));
        }
        assert(c@.take(j as int) =~= c@);
        k = k + 1;
        if k == 1 {
            assert(r@ =~= xs[0]);
        }
    }
    assert(tables.deep_view().take(k as int) =~= tables.deep_view());
    r
}

/// The cache text cut at every `|`.
pub fn split_cache(s: &str) -> (r: Vec<String>)
    ensures
        r.deep_view() == split(s@),
{
    let t = chars_of(s);
    let mut r: Vec<String> = Vec::new();
    let mut start: usize = 0;
    let mut i: usize = 0;
    assert(t@.take(0) =~= seq![]);
    assert(r.deep_view().push(t@.subrange(0, 0)) =~= seq![seq![]]);
    while i < t.len()
        invariant
            start <= i <= t@.len(),
            split(t@.take(i as int)) == r.deep_view().push(t@.subrange(start as int, i as int)),
        decreases t.len() - i,
    {
        let ghost ti = t@.take(i + 1);
        assert(ti.drop_last() =~= t@.take(i as int));
        assert(ti.last() == t@[i as int]);
        if t[i] == '|' {
            let piece = string_of(&t, start, i);
            let ghost r0 = r.deep_view();
            r.push(piece);
            assert(r.deep_view() =~= r0.push(piece@));
            start = i + 1;
            assert(t@.subrange(start as int, i + 1) =~= seq![]);
        } else {
            assert(t@.subrange(start as int, i + 1) =~= t@.subrange(start as int, i as int).push(
                t@[i as int],
            ));
        }
        i = i + 1;
    }
    let piece = string_of(&t, start, i);
    let ghost r0 = r.deep_view();
    r.push(piece);
    assert(r.deep_view() =~= r0.push(piece@));
    assert(t@.take(i as int) =~= s@);
    r
}

/// `s` without its line breaks.
pub open spec fn drop_newlines(s: Seq<char>) -> Seq<char>
    decreases s.len(),
{
    if s.len() == 0 {
        seq![]
    } else if s.last() == '\n' {
        drop_newlines(s.drop_last())
    } else {
        drop_newlines(s.drop_last()).push(s.last())
    }
}

pub open spec fn table_tag() -> Seq<char> {
    seq!['t', 'a', 'b', 'l', 'e']
}

/// Every `<table…>…</table>` fragment of a page, left to right, once its
/// line breaks are removed.
pub fn tables_from_page(html: &str) -> (r: Vec<String>)
    ensures
        r.deep_view() == select(drop_newlines(html@), table_tag(), false),
{
    let t = chars_of(html);
    let mut flat = String::new();
    let mut i: usize = 0;
    while i < t.len()
        invariant
            i <= t@.len(),
            t@ == html@,
            flat@ == drop_newlines(t@.take(i as int)),
        decreases t.len() - i,
    {
        let ghost ti = t@.take(i + 1);
        assert(ti.drop_last() =~= t@.take(i as int));
        if t[i] != '\n' {
            push_char(&mut flat, t[i]);
        }
        i = i + 1;
    }
    assert(t@.take(i as int) =~= html@);
    proof {
        reveal_strlit("table");
    }
    assert("table"@ =~= table_tag());
    select_by_tag(flat.as_str(), "table", false)
}

} // verus!
